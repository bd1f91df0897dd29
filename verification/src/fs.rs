//! Files: the descriptor table of a process and the root directory of the
//! file system, with the calls that open, close, inspect, link and unlink.
//!
//! File contents are not held here: reading and writing go through the open
//! file that `sys_read` / `sys_write` name, outside this library.

use crate::slots::{alloc_slot, fill_slot, first_free};
use vstd::prelude::*;

verus! {

/// Open flag: write only.
pub const O_WRONLY: u32 = 1;
/// Open flag: read and write.
pub const O_RDWR: u32 = 2;
/// Open flag: create the file when it does not exist.
pub const O_CREATE: u32 = 512;
/// Open flag: empty the file when it exists.
pub const O_TRUNC: u32 = 1024;

/// `fstat` mode of a directory.
pub const STAT_MODE_DIR: u32 = 0o040000;
/// `fstat` mode of a regular file.
pub const STAT_MODE_FILE: u32 = 0o100000;

/// The inode behind an open file: its number, and whether it is a regular
/// file (else a directory).
#[derive(Clone, Copy, PartialEq, Eq, Debug)]
pub struct InodeRef {
    pub ino: u32,
    pub is_file: bool,
}

/// An open file as a descriptor names it. Terminals have no inode.
#[derive(Clone, Copy, PartialEq, Eq, Debug)]
pub struct OpenFile {
    pub readable: bool,
    pub writable: bool,
    pub inode: Option<InodeRef>,
}

/// The descriptor table of a process; a `None` slot is a closed descriptor.
pub struct FdTable {
    pub entries: Vec<Option<OpenFile>>,
}

/// One name in the root directory and the inode it stands for.
pub struct DirEntry {
    pub name: Vec<u8>,
    pub ino: u32,
}

/// The root directory, the only directory, in the order its entries were
/// made, and the number the next new inode gets.
pub struct RootDir {
    pub entries: Vec<DirEntry>,
    pub next_ino: u32,
}

/// What `fstat` reports of a file.
#[derive(Clone, Copy, PartialEq, Eq, Debug)]
pub struct Stat {
    pub dev: u64,
    pub ino: u64,
    pub mode: u32,
    pub nlink: u32,
}

/// The directory's entries as (name, inode number) pairs.
pub open spec fn dir_view(root: RootDir) -> Seq<(Seq<u8>, u32)> {
    root.entries@.map_values(|e: DirEntry| (e.name@, e.ino))
}

/// `i` is the first entry of `d` named `name`.
pub open spec fn first_named(d: Seq<(Seq<u8>, u32)>, name: Seq<u8>, i: int) -> bool {
    &&& 0 <= i < d.len()
    &&& d[i].0 == name
    &&& forall|j: int| 0 <= j < i ==> #[trigger] d[j].0 != name
}

/// Some entry of `d` is named `name`.
pub open spec fn has_name(d: Seq<(Seq<u8>, u32)>, name: Seq<u8>) -> bool {
    exists|i: int| 0 <= i < d.len() && #[trigger] d[i].0 == name
}

/// Number of entries of `d` that stand for inode `ino`: its link count.
pub open spec fn nlink_of(d: Seq<(Seq<u8>, u32)>, ino: u32) -> nat
    decreases d.len(),
{
    if d.len() == 0 {
        0
    } else {
        nlink_of(d.drop_last(), ino) + if d.last().1 == ino {
            1nat
        } else {
            0nat
        }
    }
}

/// Whether two names are the same bytes.
pub(crate) fn name_eq(a: &[u8], b: &[u8]) -> (r: bool)
    ensures
        r == (a@ == b@),
{
    if a.len() != b.len() {
        return false;
    }
    let mut i: usize = 0;
    while i < a.len()
        invariant
            a@.len() == b@.len(),
            0 <= i <= a@.len(),
            forall|j: int| 0 <= j < i ==> a@[j] == b@[j],
        decreases a@.len() - i,
    {
        if a[i] != b[i] {
            return false;
        }
        i = i + 1;
    }
    assert(a@ =~= b@);
    true
}

impl RootDir {
    /// An empty root directory whose first new inode gets number `first_ino`.
    pub fn new(first_ino: u32) -> (root: RootDir)
        ensures
            dir_view(root) == Seq::<(Seq<u8>, u32)>::empty(),
            root.next_ino == first_ino,
    {
        let root = RootDir { entries: Vec::new(), next_ino: first_ino };
        assert(dir_view(root) =~= Seq::<(Seq<u8>, u32)>::empty());
        root
    }

    /// The index of the first entry named `name`.
    pub fn find(&self, name: &[u8]) -> (r: Option<usize>)
        ensures
            match r {
                Some(i) => first_named(dir_view(*self), name@, i as int),
                None => !has_name(dir_view(*self), name@),
            },
    {
        let mut i: usize = 0;
        while i < self.entries.len()
            invariant
                0 <= i <= self.entries@.len(),
                forall|j: int| 0 <= j < i ==> #[trigger] dir_view(*self)[j].0 != name@,
            decreases self.entries@.len() - i,
        {
            if name_eq(self.entries[i].name.as_slice(), name) {
                return Some(i);
            }
            i = i + 1;
        }
        None
    }

    /// The number of the inode named `name`, if any.
    pub fn lookup(&self, name: &[u8]) -> (r: Option<u32>)
        ensures
            match r {
                Some(ino) => exists|i: int| first_named(dir_view(*self), name@, i) && dir_view(*self)[i].1 == ino,
                None => !has_name(dir_view(*self), name@),
            },
    {
        match self.find(name) {
            Some(i) => Some(self.entries[i].ino),
            None => None,
        }
    }

    /// The link count of inode `ino`: how many entries stand for it.
    pub fn nlink(&self, ino: u32) -> (r: u32)
        requires
            self.entries@.len() <= u32::MAX,
        ensures
            r == nlink_of(dir_view(*self), ino),
    {
        let mut n: u32 = 0;
        let mut i: usize = 0;
        while i < self.entries.len()
            invariant
                0 <= i <= self.entries@.len(),
                self.entries@.len() <= u32::MAX,
                n == nlink_of(dir_view(*self).subrange(0, i as int), ino),
                n <= i,
            decreases self.entries@.len() - i,
        {
            assert(dir_view(*self).subrange(0, i as int + 1).drop_last() =~= dir_view(*self).subrange(
                0,
                i as int,
            ));
            if self.entries[i].ino == ino {
                n = n + 1;
            }
            i = i + 1;
        }
        assert(dir_view(*self).subrange(0, i as int) =~= dir_view(*self));
        n
    }
}


/// The entry at `fd`, when `fd` is an open descriptor.
pub open spec fn fd_entry(fds: FdTable, fd: usize) -> Option<OpenFile> {
    if fd < fds.entries@.len() {
        fds.entries@[fd as int]
    } else {
        None
    }
}

/// `write(fd, ..)` up to the transfer: returns `Ok(fd)` when `fd` is an open
/// descriptor of a writable file, through which the kernel then writes and
/// returns the bytes written; `Err(-1)` otherwise.
pub fn sys_write(fds: &FdTable, fd: usize) -> (r: Result<usize, isize>)
    ensures
        r == match fd_entry(*fds, fd) {
            Some(f) => if f.writable {
                Ok(fd)
            } else {
                Err(-1isize)
            },
            None => Err(-1isize),
        },
{
    if fd >= fds.entries.len() {
        return Err(-1);
    }
    if let Some(file) = fds.entries[fd] {
        if !file.writable {
            return Err(-1);
        }
        Ok(fd)
    } else {
        Err(-1)
    }
}

/// `read(fd, ..)` up to the transfer: returns `Ok(fd)` when `fd` is an open
/// descriptor of a readable file, through which the kernel then reads and
/// returns the bytes read; `Err(-1)` otherwise.
pub fn sys_read(fds: &FdTable, fd: usize) -> (r: Result<usize, isize>)
    ensures
        r == match fd_entry(*fds, fd) {
            Some(f) => if f.readable {
                Ok(fd)
            } else {
                Err(-1isize)
            },
            None => Err(-1isize),
        },
{
    if fd >= fds.entries.len() {
        return Err(-1);
    }
    if let Some(file) = fds.entries[fd] {
        if !file.readable {
            return Err(-1);
        }
        Ok(fd)
    } else {
        Err(-1)
    }
}

/// `close(fd)`: closes an open descriptor and returns 0; -1, with the table
/// unchanged, when `fd` is not open.
pub fn sys_close(fds: &mut FdTable, fd: usize) -> (r: isize)
    ensures
        r == 0 <==> fd_entry(*old(fds), fd) is Some,
        r == 0 || r == -1,
        r == 0 ==> final(fds).entries@ == old(fds).entries@.update(fd as int, None),
        r == -1 ==> final(fds).entries@ == old(fds).entries@,
{
    if fd >= fds.entries.len() {
        return -1;
    }
    if fds.entries[fd].is_none() {
        return -1;
    }
    fds.entries[fd] = None;
    0
}

/// The flags that `open` understands: bits other than these are refused.
pub open spec fn open_flags_valid(flags: u32) -> bool {
    flags & !(O_WRONLY | O_RDWR | O_CREATE | O_TRUNC) == 0
}

/// Whether a file opened with `flags` may be read and written: no flag means
/// read only, `O_WRONLY` write only, anything else both.
pub open spec fn open_access(flags: u32) -> (bool, bool) {
    if flags == 0 {
        (true, false)
    } else if flags & O_WRONLY != 0 {
        (false, true)
    } else {
        (true, true)
    }
}

/// The access an open gives: read only with no flag at all, write only with
/// `O_WRONLY`, and otherwise (any other non-zero flags, `O_RDWR`, `O_CREATE`,
/// `O_TRUNC` or a mix of them) both reading and writing.
pub proof fn lemma_open_access_modes(flags: u32)
    ensures
        flags == 0 ==> open_access(flags) == (true, false),
        flags & 1 != 0 ==> open_access(flags) == (false, true),
        flags != 0 && flags & 1 == 0 ==> open_access(flags) == (true, true),
        open_access(O_RDWR) == (true, true),
        open_access(O_CREATE | O_RDWR) == (true, true),
        open_access(O_CREATE) == (true, true),
{
    assert(flags & 1u32 != 0u32 ==> flags != 0u32) by (bit_vector);
    assert((2u32 & 1u32) == 0u32 && (514u32 & 1u32) == 0u32 && (512u32 & 1u32) == 0u32 && (512u32 | 2u32) == 514u32) by (bit_vector);
}

/// Whether `flags` asks for the file to be created when it does not exist.
pub open spec fn open_creates(flags: u32) -> bool {
    flags & O_CREATE != 0
}

/// The inode that `open(path, flags)` reaches: the one `path` names, or,
/// with `O_CREATE` and no such name, the next new inode.
pub open spec fn open_target(root: RootDir, path: Seq<u8>, flags: u32) -> Option<u32> {
    if has_name(dir_view(root), path) {
        Some(dir_view(root)[choose|i: int| first_named(dir_view(root), path, i)].1)
    } else if open_creates(flags) {
        Some(root.next_ino)
    } else {
        None
    }
}

/// `open(path, flags)`: opens the file named `path` in the root directory,
/// creating it with `O_CREATE` when it does not exist, in the lowest closed
/// descriptor (or a new one at the end), readable and writable as
/// `open_access` says; returns the descriptor. Returns -1, changing nothing,
/// when no file is named `path` and `O_CREATE` is not given. Emptying the
/// file's data for `O_CREATE` or `O_TRUNC` falls to the file layer.
pub fn sys_open(fds: &mut FdTable, root: &mut RootDir, path: &[u8], flags: u32) -> (r: isize)
    requires
        open_flags_valid(flags),
        old(fds).entries@.len() < isize::MAX,
        old(root).next_ino < u32::MAX,
    ensures
        r == -1 <==> open_target(*old(root), path@, flags) is None,
        r == -1 ==> final(fds).entries@ == old(fds).entries@ && dir_view(*final(root)) == dir_view(
            *old(root),
        ) && final(root).next_ino == old(root).next_ino,
        r != -1 ==> 0 <= r < final(fds).entries@.len() && final(fds).entries@[r as int] is Some,
        r != -1 && flags == 0 ==> final(fds).entries@[r as int].unwrap().readable
            && !final(fds).entries@[r as int].unwrap().writable,
        r != -1 && flags & 1 != 0 ==> !final(fds).entries@[r as int].unwrap().readable
            && final(fds).entries@[r as int].unwrap().writable,
        r != -1 && flags != 0 && flags & 1 == 0 ==> final(fds).entries@[r as int].unwrap().readable
            && final(fds).entries@[r as int].unwrap().writable,
        r != -1 ==> {
            let ino = open_target(*old(root), path@, flags).unwrap();
            let (rd, wr) = open_access(flags);
            &&& r >= 0
            &&& first_free(old(fds).entries@, r as int)
            &&& final(fds).entries@ == fill_slot(
                old(fds).entries@,
                r as int,
                OpenFile { readable: rd, writable: wr, inode: Some(InodeRef { ino, is_file: true }) },
            )
            &&& if has_name(dir_view(*old(root)), path@) {
                dir_view(*final(root)) == dir_view(*old(root)) && final(root).next_ino == old(
                    root,
                ).next_ino
            } else {
                dir_view(*final(root)) == dir_view(*old(root)).push((path@, old(root).next_ino))
                    && final(root).next_ino == old(root).next_ino + 1
            }
        },
{
    let readable = flags == 0 || flags & O_WRONLY == 0;
    let writable = flags != 0;
    let found = root.lookup(path);
    let ino = match found {
        Some(ino) => {
            proof {
                let i = choose|i: int| first_named(dir_view(*old(root)), path@, i) && dir_view(*old(root))[i].1 == ino;
                let k = choose|k: int| first_named(dir_view(*old(root)), path@, k);
                assert(i == k) by {
                    if i < k {
                        assert(dir_view(*old(root))[i].0 != path@);
                    } else if k < i {
                        assert(dir_view(*old(root))[k].0 != path@);
                    }
                }
            }
            ino
        },
        None => {
            if flags & O_CREATE == 0 {
                return -1;
            }
            let ino = root.next_ino;
            let name = vstd::slice::slice_to_vec(path);
            let ghost d0 = dir_view(*root);
            root.entries.push(DirEntry { name, ino });
            root.next_ino = ino + 1;
            assert(dir_view(*root) =~= d0.push((path@, ino)));
            ino
        },
    };
    assert(open_access(flags) == (readable, writable)) by {
        assert(flags & 1u32 != 0u32 ==> flags != 0u32) by (bit_vector);
    }
    assert(flags & 1u32 != 0u32 ==> flags != 0u32) by (bit_vector);
    let file = OpenFile { readable, writable, inode: Some(InodeRef { ino, is_file: true }) };
    let fd = alloc_slot(&mut fds.entries, file);
    fd as isize
}

/// `fstat(fd)`: what the kernel writes to the caller's `Stat` for an open
/// descriptor of a file or directory (device 0, its inode number, its mode,
/// its link count in the root directory); `Err(-1)` for a descriptor that is
/// not open or has no inode.
pub fn sys_fstat(fds: &FdTable, root: &RootDir, fd: usize) -> (r: Result<Stat, isize>)
    requires
        root.entries@.len() <= u32::MAX,
    ensures
        r == match fd_entry(*fds, fd) {
            Some(f) => match f.inode {
                Some(node) => Ok(
                    Stat {
                        dev: 0,
                        ino: node.ino as u64,
                        mode: if node.is_file {
                            STAT_MODE_FILE
                        } else {
                            STAT_MODE_DIR
                        },
                        nlink: nlink_of(dir_view(*root), node.ino) as u32,
                    },
                ),
                None => Err(-1isize),
            },
            None => Err(-1isize),
        },
{
    if fd >= fds.entries.len() {
        return Err(-1);
    }
    if let Some(file) = fds.entries[fd] {
        if let Some(node) = file.inode {
            let ino = node.ino;
            let nlink = root.nlink(ino);
            let mode = if node.is_file {
                STAT_MODE_FILE
            } else {
                STAT_MODE_DIR
            };
            Ok(Stat { dev: 0, ino: ino as u64, mode, nlink })
        } else {
            Err(-1)
        }
    } else {
        Err(-1)
    }
}

/// `linkat(old_name, new_name)`: adds a directory entry `new_name` for the
/// inode that `old_name` names, so its link count grows by one, and returns 0;
/// -1, changing nothing, when no entry is named `old_name`.
pub fn sys_linkat(root: &mut RootDir, old_name: &[u8], new_name: &[u8]) -> (r: isize)
    ensures
        r == 0 || r == -1,
        r == 0 <==> has_name(dir_view(*old(root)), old_name@),
        r == 0 ==> exists|i: int|
            first_named(dir_view(*old(root)), old_name@, i) && dir_view(*final(root)) == dir_view(
                *old(root),
            ).push((new_name@, dir_view(*old(root))[i].1)),
        r == -1 ==> dir_view(*final(root)) == dir_view(*old(root)),
        final(root).next_ino == old(root).next_ino,
{
    match root.find(old_name) {
        Some(i) => {
            let ino = root.entries[i].ino;
            let name = vstd::slice::slice_to_vec(new_name);
            let ghost d0 = dir_view(*root);
            root.entries.push(DirEntry { name, ino });
            assert(dir_view(*root) =~= d0.push((new_name@, d0[i as int].1)));
            0
        },
        None => -1,
    }
}

/// `unlinkat(name)`: removes the first directory entry named `name`, so the
/// link count of its inode drops by one, and returns 0; -1, changing nothing,
/// when no entry is named `name`.
pub fn sys_unlinkat(root: &mut RootDir, name: &[u8]) -> (r: isize)
    ensures
        r == 0 || r == -1,
        r == 0 <==> has_name(dir_view(*old(root)), name@),
        r == 0 ==> exists|i: int|
            first_named(dir_view(*old(root)), name@, i) && dir_view(*final(root)) == dir_view(
                *old(root),
            ).remove(i),
        r == -1 ==> dir_view(*final(root)) == dir_view(*old(root)),
        final(root).next_ino == old(root).next_ino,
{
    match root.find(name) {
        Some(i) => {
            let ghost d0 = dir_view(*root);
            root.entries.remove(i);
            assert(dir_view(*root) =~= d0.remove(i as int));
            0
        },
        None => -1,
    }
}


/// Adding an entry for inode `ino` raises its link count by one and leaves
/// every other inode's count as it was.
pub proof fn lemma_link_count_grows(d: Seq<(Seq<u8>, u32)>, name: Seq<u8>, ino: u32, other: u32)
    requires
        other != ino,
    ensures
        nlink_of(d.push((name, ino)), ino) == nlink_of(d, ino) + 1,
        nlink_of(d.push((name, ino)), other) == nlink_of(d, other),
{
    assert(d.push((name, ino)).drop_last() =~= d);
}

/// Removing entry `i` lowers the link count of its inode by one and leaves
/// every other inode's count as it was.
pub proof fn lemma_unlink_count_drops(d: Seq<(Seq<u8>, u32)>, i: int, other: u32)
    requires
        0 <= i < d.len(),
        other != d[i].1,
    ensures
        nlink_of(d.remove(i), d[i].1) + 1 == nlink_of(d, d[i].1),
        nlink_of(d.remove(i), other) == nlink_of(d, other),
    decreases d.len(),
{
    if i < d.len() - 1 {
        lemma_unlink_count_drops(d.drop_last(), i, other);
        assert(d.remove(i).drop_last() =~= d.drop_last().remove(i));
        assert(d.remove(i).last() == d.last());
    } else {
        assert(d.remove(i) =~= d.drop_last());
    }
}

/// After `linkat(old_name, new_name)` with `new_name` not yet in the
/// directory, `new_name` names the inode that `old_name` names, and
/// `unlinkat(new_name)` gives the directory back as it was.
pub proof fn lemma_unlink_undoes_link(d: Seq<(Seq<u8>, u32)>, new_name: Seq<u8>, ino: u32)
    requires
        !has_name(d, new_name),
    ensures
        first_named(d.push((new_name, ino)), new_name, d.len() as int),
        d.push((new_name, ino))[d.len() as int].1 == ino,
        d.push((new_name, ino)).remove(d.len() as int) == d,
{
    assert forall|j: int| 0 <= j < d.len() implies #[trigger] d.push((new_name, ino))[j].0
        != new_name by {
        assert(d.push((new_name, ino))[j] == d[j]);
    }
    assert(d.push((new_name, ino)).remove(d.len() as int) =~= d);
}

/// Unlinking a name that occurs once in the directory leaves no entry of
/// that name, so it no longer resolves.
pub proof fn lemma_unlink_removes_name(d: Seq<(Seq<u8>, u32)>, name: Seq<u8>, i: int)
    requires
        first_named(d, name, i),
        forall|j: int| 0 <= j < d.len() && j != i ==> #[trigger] d[j].0 != name,
    ensures
        !has_name(d.remove(i), name),
{
    assert forall|k: int| 0 <= k < d.remove(i).len() implies #[trigger] d.remove(i)[k].0 != name by {
        let j = if k < i { k } else { k + 1 };
        assert(d.remove(i)[k] == d[j]);
    }
}

/// Closing the descriptor that `open` just returned succeeds, and a second
/// close of it fails; when `open` reused a closed slot, the table is then as
/// it was before the open.
pub proof fn lemma_close_after_open(s: Seq<Option<OpenFile>>, fd: int, f: OpenFile)
    requires
        first_free(s, fd),
    ensures
        fill_slot(s, fd, f)[fd] is Some,
        fill_slot(s, fd, f).update(fd, None)[fd] is None,
        forall|i: int| 0 <= i < s.len() ==> #[trigger] fill_slot(s, fd, f).update(fd, None)[i] == s[i],
        fd < s.len() ==> fill_slot(s, fd, f).update(fd, None) == s,
{
    if fd < s.len() {
        assert(fill_slot(s, fd, f).update(fd, None) =~= s);
    }
}

} // verus!
