use rcore_os::fs::{
    sys_close, sys_fstat, sys_linkat, sys_open, sys_read, sys_unlinkat, sys_write, FdTable,
    InodeRef, OpenFile, RootDir, Stat, O_CREATE, O_RDWR, O_TRUNC, O_WRONLY, STAT_MODE_DIR,
    STAT_MODE_FILE,
};

fn stdio() -> FdTable {
    let stdin = OpenFile { readable: true, writable: false, inode: None };
    let stdout = OpenFile { readable: false, writable: true, inode: None };
    FdTable { entries: vec![Some(stdin), Some(stdout), Some(stdout)] }
}

#[test]
fn open_creates_and_uses_lowest_free_descriptor() {
    let mut fds = stdio();
    let mut root = RootDir::new(1);
    assert_eq!(sys_open(&mut fds, &mut root, b"fname", O_CREATE | O_WRONLY), 3);
    assert_eq!(root.lookup(b"fname"), Some(1));
    assert_eq!(root.next_ino, 2);
    assert_eq!(sys_close(&mut fds, 0), 0);
    assert_eq!(sys_open(&mut fds, &mut root, b"fname", 0), 0);
    assert_eq!(
        fds.entries[0],
        Some(OpenFile { readable: true, writable: false, inode: Some(InodeRef { ino: 1, is_file: true }) })
    );
    assert_eq!(root.next_ino, 2);
}

#[test]
fn open_access_modes() {
    let mut fds = FdTable { entries: vec![] };
    let mut root = RootDir::new(5);
    assert_eq!(sys_open(&mut fds, &mut root, b"a", O_CREATE), 0);
    assert_eq!(fds.entries[0].unwrap().readable, true);
    assert_eq!(fds.entries[0].unwrap().writable, true);
    assert_eq!(sys_open(&mut fds, &mut root, b"a", O_RDWR | O_TRUNC), 1);
    assert_eq!((fds.entries[1].unwrap().readable, fds.entries[1].unwrap().writable), (true, true));
    assert_eq!(sys_open(&mut fds, &mut root, b"a", O_WRONLY), 2);
    assert_eq!((fds.entries[2].unwrap().readable, fds.entries[2].unwrap().writable), (false, true));
}

#[test]
fn open_missing_without_create_fails() {
    let mut fds = stdio();
    let mut root = RootDir::new(1);
    assert_eq!(sys_open(&mut fds, &mut root, b"nope", O_RDWR), -1);
    assert_eq!(fds.entries.len(), 3);
    assert_eq!(root.entries.len(), 0);
}

#[test]
fn read_and_write_check_descriptor_and_access() {
    let fds = stdio();
    assert_eq!(sys_write(&fds, 1), Ok(1));
    assert_eq!(sys_write(&fds, 0), Err(-1));
    assert_eq!(sys_read(&fds, 0), Ok(0));
    assert_eq!(sys_read(&fds, 1), Err(-1));
    assert_eq!(sys_read(&fds, 7), Err(-1));
    assert_eq!(sys_write(&fds, 3), Err(-1));
}

#[test]
fn close_twice_fails_the_second_time() {
    let mut fds = stdio();
    assert_eq!(sys_close(&mut fds, 2), 0);
    assert_eq!(fds.entries[2], None);
    assert_eq!(sys_close(&mut fds, 2), -1);
    assert_eq!(sys_close(&mut fds, 10), -1);
    assert_eq!(sys_write(&fds, 2), Err(-1));
}

#[test]
fn fstat_reports_inode_mode_and_links() {
    let mut fds = stdio();
    let mut root = RootDir::new(3);
    let fd = sys_open(&mut fds, &mut root, b"fname0", O_CREATE | O_WRONLY) as usize;
    assert_eq!(sys_fstat(&fds, &root, fd), Ok(Stat { dev: 0, ino: 3, mode: STAT_MODE_FILE, nlink: 1 }));
    assert_eq!(sys_fstat(&fds, &root, 0), Err(-1));
    assert_eq!(sys_fstat(&fds, &root, 99), Err(-1));
    fds.entries.push(Some(OpenFile { readable: true, writable: false, inode: Some(InodeRef { ino: 0, is_file: false }) }));
    assert_eq!(sys_fstat(&fds, &root, 4), Ok(Stat { dev: 0, ino: 0, mode: STAT_MODE_DIR, nlink: 0 }));
}

#[test]
fn link_then_unlink_changes_link_count() {
    let mut fds = stdio();
    let mut root = RootDir::new(1);
    let fd = sys_open(&mut fds, &mut root, b"fname2", O_CREATE | O_WRONLY) as usize;
    assert_eq!(sys_linkat(&mut root, b"fname2", b"linkname0"), 0);
    assert_eq!(sys_linkat(&mut root, b"fname2", b"linkname1"), 0);
    assert_eq!(sys_fstat(&fds, &root, fd).unwrap().nlink, 3);
    assert_eq!(root.lookup(b"linkname1"), root.lookup(b"fname2"));
    assert_eq!(sys_unlinkat(&mut root, b"fname2"), 0);
    assert_eq!(sys_fstat(&fds, &root, fd).unwrap().nlink, 2);
    assert_eq!(sys_unlinkat(&mut root, b"linkname0"), 0);
    assert_eq!(sys_unlinkat(&mut root, b"linkname1"), 0);
    assert_eq!(sys_fstat(&fds, &root, fd).unwrap().nlink, 0);
    assert_eq!(sys_unlinkat(&mut root, b"linkname1"), -1);
}

#[test]
fn link_to_missing_name_fails() {
    let mut root = RootDir::new(1);
    assert_eq!(sys_linkat(&mut root, b"missing", b"new"), -1);
    assert_eq!(root.entries.len(), 0);
    assert_eq!(root.nlink(1), 0);
}
