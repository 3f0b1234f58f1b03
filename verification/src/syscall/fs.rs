//! File system calls.
use vstd::prelude::*;
use crate::fs::{FdTable, FileDesc, LinkOutcome, UnlinkOutcome, link, unlink, lowest_free_fd, link_spec, unlink_spec};

verus! {

/// The entry of descriptor `fd`, or `None` if `fd` is out of the table.
pub open spec fn fd_entry(t: Seq<Option<FileDesc>>, fd: int) -> Option<FileDesc> {
    if 0 <= fd < t.len() { t[fd] } else { None }
}

/// The open file that a write to `fd` goes to: an open descriptor that allows writing.
pub open spec fn write_target(t: Seq<Option<FileDesc>>, fd: int) -> Option<usize> {
    match fd_entry(t, fd) {
        Some(f) => if f.writable { Some(f.file) } else { None },
        None => None,
    }
}

/// The open file that a read from `fd` comes from: an open descriptor that allows reading.
pub open spec fn read_target(t: Seq<Option<FileDesc>>, fd: int) -> Option<usize> {
    match fd_entry(t, fd) {
        Some(f) => if f.readable { Some(f.file) } else { None },
        None => None,
    }
}

/// The result of closing `fd` and the table after it: 0 and an empty entry
/// if `fd` was open, -1 and the same table otherwise.
pub open spec fn close_result(t: Seq<Option<FileDesc>>, fd: int) -> (isize, Seq<Option<FileDesc>>) {
    if fd_entry(t, fd).is_some() { (0isize, t.update(fd, None)) } else { (-1isize, t) }
}

/// Decides a write to `fd`: the open file to write the user buffer to, or
/// `None` when `fd` is not open or not writable (the call then returns -1;
/// otherwise it returns the number of bytes written).
pub fn sys_write(fd_table: &FdTable, fd: usize) -> (r: Option<usize>)
    ensures
        r == write_target(fd_table@, fd as int),
{
    if fd >= fd_table.len() {
        return None;
    }
    match fd_table.get(fd) {
        Some(file) => {
            if !file.writable {
                return None;
            }
            Some(file.file)
        },
        None => None,
    }
}

/// Decides a read from `fd`: the open file to read into the user buffer, or
/// `None` when `fd` is not open or not readable (the call then returns -1;
/// otherwise it returns the number of bytes read).
pub fn sys_read(fd_table: &FdTable, fd: usize) -> (r: Option<usize>)
    ensures
        r == read_target(fd_table@, fd as int),
{
    if fd >= fd_table.len() {
        return None;
    }
    match fd_table.get(fd) {
        Some(file) => {
            if !file.readable {
                return None;
            }
            Some(file.file)
        },
        None => None,
    }
}

/// Installs the file that `open` produced (`None`: it failed) at the lowest
/// free descriptor and returns that descriptor, or -1.
pub fn sys_open(fd_table: &mut FdTable, opened: Option<FileDesc>) -> (r: isize)
    requires
        old(fd_table)@.len() < isize::MAX,
    ensures
        match opened {
            Some(f) => {
                let fd = lowest_free_fd(old(fd_table)@);
                &&& r == fd
                &&& final(fd_table)@.len() == (if fd < old(fd_table)@.len() { old(fd_table)@.len() } else { old(fd_table)@.len() + 1 })
                &&& final(fd_table)@[fd] == Some(f)
                &&& forall|i: int| 0 <= i < old(fd_table)@.len() && i != fd ==> #[trigger] final(fd_table)@[i] == old(fd_table)@[i]
            },
            None => r == -1 && final(fd_table)@ == old(fd_table)@,
        },
{
    match opened {
        Some(inode) => {
            let fd = fd_table.alloc_fd();
            fd_table.install(fd, inode);
            fd as isize
        },
        None => -1,
    }
}

/// Closes `fd`: 0 if it was open, -1 otherwise.
pub fn sys_close(fd_table: &mut FdTable, fd: usize) -> (r: isize)
    ensures
        (r, final(fd_table)@) == close_result(old(fd_table)@, fd as int),
{
    if fd >= fd_table.len() {
        return -1;
    }
    if fd_table.get(fd).is_none() {
        return -1;
    }
    fd_table.take(fd);
    0
}

/// Decides `fstat` on `fd`: the open file whose status is written to the
/// user, or `None` when `fd` is not open (the call then returns -1; otherwise 0).
pub fn sys_fstat(fd_table: &FdTable, fd: usize) -> (r: Option<usize>)
    ensures
        r == (match fd_entry(fd_table@, fd as int) { Some(f) => Some(f.file), None => None }),
{
    if fd >= fd_table.len() {
        return None;
    }
    match fd_table.get(fd) {
        Some(file) => Some(file.file),
        None => None,
    }
}

fn same_path(a: &[u8], b: &[u8]) -> (r: bool)
    ensures
        r == (a@ == b@),
{
    if a.len() != b.len() {
        return false;
    }
    let mut i: usize = 0;
    while i < a.len()
        invariant
            a@.len() == b@.len(),
            i <= a@.len(),
            forall|j: int| 0 <= j < i ==> a@[j] == b@[j],
        decreases a@.len() - i,
    {
        if a[i] != b[i] {
            return false;
        }
        i = i + 1;
    }
    assert(a@ =~= b@);
    true
}

/// Links `new_path` to the file at `old_path`, whose link count is
/// `old_nlink` (`None`: no such file): a link of a name to itself fails.
pub fn sys_linkat(old_path: &[u8], new_path: &[u8], old_nlink: Option<u32>) -> (r: LinkOutcome)
    requires
        old_path@ != new_path@ && old_nlink.is_some() ==> 1 <= old_nlink.unwrap() < u32::MAX,
    ensures
        old_path@ == new_path@ ==> r == (LinkOutcome { ret: -1isize, set_nlink: None, add_entry: false }),
        old_path@ != new_path@ ==> r == link_spec(old_nlink),
        old_path@ != new_path@ && old_nlink.is_some() ==> {
            &&& r.ret == 0
            &&& r.set_nlink == Some((old_nlink.unwrap() + 1) as u32)
            &&& r.add_entry
        },
        old_nlink.is_none() ==> r.ret == -1 && r.set_nlink.is_none() && !r.add_entry,
{
    if same_path(old_path, new_path) {
        return LinkOutcome { ret: -1, set_nlink: None, add_entry: false };
    }
    link(old_nlink)
}

/// Unlinks the file at a path whose link count is `nlink` (`None`: no such file).
pub fn sys_unlinkat(nlink: Option<u32>) -> (r: UnlinkOutcome)
    requires
        nlink.is_some() ==> nlink.unwrap() >= 1,
    ensures
        r == unlink_spec(nlink),
{
    unlink(nlink)
}

/// A write reaches a file only through a descriptor of the table that is
/// open and grants writing, and then reaches the file of that descriptor; a
/// read likewise needs a descriptor that grants reading.
pub proof fn lemma_access_needs_rights(t: Seq<Option<FileDesc>>, fd: int)
    ensures
        write_target(t, fd).is_some() <==> (0 <= fd < t.len() && t[fd].is_some() && t[fd].unwrap().writable),
        write_target(t, fd).is_some() ==> write_target(t, fd).unwrap() == t[fd].unwrap().file,
        read_target(t, fd).is_some() <==> (0 <= fd < t.len() && t[fd].is_some() && t[fd].unwrap().readable),
        read_target(t, fd).is_some() ==> read_target(t, fd).unwrap() == t[fd].unwrap().file,
{
}

/// Closing a descriptor that is open succeeds, and closing it again fails.
pub proof fn lemma_close_twice(t: Seq<Option<FileDesc>>, fd: int)
    requires
        fd_entry(t, fd).is_some(),
    ensures
        close_result(t, fd).0 == 0,
        close_result(close_result(t, fd).1, fd).0 == -1,
        close_result(close_result(t, fd).1, fd).1 == close_result(t, fd).1,
{
}

/// A closed descriptor can be neither read nor written.
pub proof fn lemma_closed_fd_unusable(t: Seq<Option<FileDesc>>, fd: int)
    ensures
        read_target(close_result(t, fd).1, fd).is_none(),
        write_target(close_result(t, fd).1, fd).is_none(),
{
}

/// The descriptor that `open` returns is the lowest one not in use.
pub proof fn lemma_open_lowest_fd(t: Seq<Option<FileDesc>>, fd: int)
    requires
        fd == lowest_free_fd(t),
    ensures
        forall|i: int| 0 <= i < fd ==> #[trigger] t[i].is_some(),
        fd <= t.len(),
        fd < t.len() ==> t[fd].is_none(),
{
    if exists|i: int| 0 <= i < t.len() && t[i].is_none() {
        let w = choose|i: int| 0 <= i < t.len() && t[i].is_none();
        lemma_exists_first_free(t, w);
    }
}

/// If some entry is free, there is a first free entry.
proof fn lemma_exists_first_free(t: Seq<Option<FileDesc>>, w: int)
    requires
        0 <= w < t.len(),
        t[w].is_none(),
    ensures
        exists|i: int| 0 <= i < t.len() && t[i].is_none() && forall|j: int| 0 <= j < i ==> t[j].is_some(),
    decreases w,
{
    if forall|j: int| 0 <= j < w ==> t[j].is_some() {
    } else {
        let v = choose|j: int| 0 <= j < w && !t[j].is_some();
        lemma_exists_first_free(t, v);
    }
}

} // verus!
