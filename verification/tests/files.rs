use rcore_os::fs::{
    file_stat, link, open_file, unlink, FdTable, FileDesc, OSInode, OpenAction, OpenFlags, O_CREATE, O_RDWR, O_TRUNC,
    O_WRONLY, STAT_FILE,
};
use rcore_os::syscall::fs::{sys_close, sys_fstat, sys_linkat, sys_open, sys_read, sys_unlinkat, sys_write};

fn desc(readable: bool, writable: bool, file: usize) -> FileDesc {
    FileDesc { readable, writable, file }
}

#[test]
fn open_flags_from_bits() {
    assert!(OpenFlags::from_bits(O_CREATE | O_WRONLY).is_some());
    assert!(OpenFlags::from_bits(0).is_some());
    assert!(OpenFlags::from_bits(1 << 3).is_none());
}

#[test]
fn read_write_by_flags() {
    assert_eq!(OpenFlags { bits: 0 }.read_write(), (true, false));
    assert_eq!(OpenFlags { bits: O_WRONLY }.read_write(), (false, true));
    assert_eq!(OpenFlags { bits: O_RDWR }.read_write(), (true, true));
    assert_eq!(OpenFlags { bits: O_CREATE }.read_write(), (true, true));
    assert_eq!(OpenFlags { bits: O_CREATE | O_WRONLY }.read_write(), (false, true));
}

#[test]
fn open_file_plans() {
    let create = OpenFlags { bits: O_CREATE | O_RDWR };
    assert_eq!(open_file(create, true).action, OpenAction::ClearExisting);
    assert_eq!(open_file(create, false).action, OpenAction::CreateNew);
    let plain = OpenFlags { bits: O_WRONLY };
    let p = open_file(plain, true);
    assert_eq!(p.action, OpenAction::OpenExisting);
    assert_eq!((p.readable, p.writable), (false, true));
    assert_eq!(open_file(plain, false).action, OpenAction::Fail);
    assert_eq!(open_file(OpenFlags { bits: O_TRUNC }, true).action, OpenAction::ClearExisting);
    assert_eq!(open_file(OpenFlags { bits: O_TRUNC }, false).action, OpenAction::Fail);
}

#[test]
fn link_and_unlink_counts() {
    let l = link(Some(1));
    assert_eq!(l.ret, 0);
    assert_eq!(l.set_nlink, Some(2));
    assert!(l.add_entry);
    assert_eq!(link(None).ret, -1);
    let u = unlink(Some(2));
    assert_eq!((u.ret, u.set_nlink, u.remove_name, u.clear_data), (0, Some(1), true, false));
    let last = unlink(Some(1));
    assert_eq!((last.ret, last.set_nlink, last.remove_name, last.clear_data), (0, Some(0), true, true));
    let missing = unlink(None);
    assert!(!missing.remove_name && !missing.clear_data);
    assert_eq!(unlink(None).ret, -1);
}

#[test]
fn linkat_refuses_same_name() {
    let same = sys_linkat(b"a.txt", b"a.txt", Some(1));
    assert_eq!(same.ret, -1);
    assert_eq!(same.set_nlink, None);
    let ok = sys_linkat(b"a.txt", b"b.txt", Some(1));
    assert_eq!(ok.ret, 0);
    assert_eq!(ok.set_nlink, Some(2));
    assert_eq!(sys_linkat(b"nope", b"b.txt", None).ret, -1);
    let u = sys_unlinkat(Some(2));
    assert_eq!((u.set_nlink, u.remove_name, u.clear_data), (Some(1), true, false));
    assert_eq!(sys_unlinkat(None).ret, -1);
}

#[test]
fn stat_of_a_file() {
    let s = file_stat(12, 3);
    assert_eq!((s.dev, s.ino, s.mode, s.nlink), (0, 12, STAT_FILE, 3));
    assert_eq!(s.pad, [0u64; 7]);
}

#[test]
fn os_inode_offset() {
    let mut f = OSInode::new(true, false);
    assert!(f.readable() && !f.writable());
    f.advance(512);
    f.advance(3);
    assert_eq!(f.offset, 515);
}

#[test]
fn fd_table_reuses_lowest_free() {
    let mut t = FdTable::from_entries(vec![Some(desc(true, false, 0)), None, Some(desc(false, true, 1))]);
    assert_eq!(t.alloc_fd(), 1);
    t.install(1, desc(true, true, 7));
    assert_eq!(t.alloc_fd(), 3);
    assert_eq!(t.len(), 4);
}

#[test]
fn open_write_read_close() {
    let mut t = FdTable::new();
    assert_eq!(sys_open(&mut t, Some(desc(true, false, 10))), 0);
    assert_eq!(sys_open(&mut t, Some(desc(false, true, 11))), 1);
    assert_eq!(sys_open(&mut t, None), -1);
    assert_eq!(sys_read(&t, 0), Some(10));
    assert_eq!(sys_write(&t, 0), None);
    assert_eq!(sys_write(&t, 1), Some(11));
    assert_eq!(sys_read(&t, 1), None);
    assert_eq!(sys_write(&t, 5), None);
    assert_eq!(sys_fstat(&t, 1), Some(11));
    assert_eq!(sys_fstat(&t, 9), None);
    assert_eq!(sys_close(&mut t, 0), 0);
    assert_eq!(sys_close(&mut t, 0), -1);
    assert_eq!(sys_close(&mut t, 99), -1);
    assert_eq!(sys_read(&t, 0), None);
    assert_eq!(sys_fstat(&t, 0), None);
    // the freed descriptor is the next one handed out
    assert_eq!(sys_open(&mut t, Some(desc(true, true, 12))), 0);
    assert_eq!(t.get(0), Some(desc(true, true, 12)));
}
