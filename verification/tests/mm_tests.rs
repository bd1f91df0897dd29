use rcore_os::mm::{sys_mmap, sys_munmap, MemorySet, PAGE_SIZE, PERM_R, PERM_U, PERM_W, PERM_X};

#[test]
fn mmap_maps_rounded_range_with_user_permissions() {
    let mut ms = MemorySet::new();
    let start = 0x1000_0000;
    assert_eq!(sys_mmap(&mut ms, start, 4096, 3), 0);
    assert_eq!(ms.translate(start / PAGE_SIZE), Some(PERM_U | PERM_R | PERM_W));
    assert_eq!(ms.translate(start / PAGE_SIZE + 1), None);
    // a length of one byte maps a whole page
    assert_eq!(sys_mmap(&mut ms, start + 2 * PAGE_SIZE, 1, 4), 0);
    assert_eq!(ms.translate(start / PAGE_SIZE + 2), Some(PERM_U | PERM_X));
    assert_eq!(ms.translate(start / PAGE_SIZE + 3), None);
}

#[test]
fn mmap_permission_word_maps_each_bit() {
    for port in 1..8usize {
        let mut ms = MemorySet::new();
        assert_eq!(sys_mmap(&mut ms, 0, PAGE_SIZE, port), 0);
        assert_eq!(ms.translate(0), Some((16 + 2 * port) as u8));
    }
}

#[test]
fn mmap_rejects_bad_arguments() {
    let mut ms = MemorySet::new();
    let start = 0x1000_0000;
    let len = 4096;
    assert_eq!(sys_mmap(&mut ms, start - len, len + 1, 3), 0);
    assert_eq!(sys_mmap(&mut ms, start + len + 1, len, 3), -1);
    assert_eq!(sys_mmap(&mut ms, start + len, len, 0), -1);
    assert_eq!(sys_mmap(&mut ms, start + len, len, 3 | 8), -1);
    assert_eq!(sys_mmap(&mut ms, start + len, 0, 3), -1);
    assert_eq!(ms.translate((start + len) / PAGE_SIZE), None);
}

#[test]
fn mmap_refuses_overlap_and_changes_nothing() {
    let mut ms = MemorySet::new();
    assert_eq!(sys_mmap(&mut ms, 0x2000, 0x2000, 1), 0);
    assert_eq!(sys_mmap(&mut ms, 0x3000, 0x2000, 3), -1);
    assert_eq!(ms.translate(4), None);
    assert_eq!(ms.translate(3), Some(PERM_U | PERM_R));
}

#[test]
fn munmap_after_mmap_restores() {
    let mut ms = MemorySet::new();
    assert_eq!(sys_mmap(&mut ms, 0x1000, 0x3000, 7), 0);
    assert_eq!(sys_munmap(&mut ms, 0x1000, 0x3000), 0);
    for v in 0..8 {
        assert_eq!(ms.translate(v), None);
    }
    assert_eq!(sys_munmap(&mut ms, 0x1000, 0x1000), -1);
}

#[test]
fn munmap_rejects_unaligned_empty_and_partly_unmapped() {
    let mut ms = MemorySet::new();
    assert_eq!(sys_mmap(&mut ms, 0x1000, 0x1000, 2), 0);
    assert_eq!(sys_munmap(&mut ms, 0x1001, 0x1000), -1);
    assert_eq!(sys_munmap(&mut ms, 0x1000, 0), -1);
    assert_eq!(sys_munmap(&mut ms, 0x1000, 0x2000), -1);
    assert_eq!(ms.translate(1), Some(PERM_U | PERM_W));
    // part of a mapping can be unmapped
    assert_eq!(sys_munmap(&mut ms, 0x1000, 1), 0);
    assert_eq!(ms.translate(1), None);
}
