//! Files: open flags, file status, the per-process table of file
//! descriptors, and the bookkeeping of opening, linking and unlinking.
use vstd::prelude::*;

verus! {

/// Open read-only (no bit set).
pub const O_RDONLY: u32 = 0;
/// Open write-only.
pub const O_WRONLY: u32 = 1;
/// Open for reading and writing.
pub const O_RDWR: u32 = 2;
/// Create the file if it does not exist.
pub const O_CREATE: u32 = 0x200;
/// Truncate the file to length 0.
pub const O_TRUNC: u32 = 0x400;

/// The flags of `open`: any combination of `O_WRONLY`, `O_RDWR`,
/// `O_CREATE` and `O_TRUNC`.
#[derive(Clone, Copy, PartialEq, Eq, Structural, Debug)]
pub struct OpenFlags {
    pub bits: u32,
}

/// The bits that name a flag.
pub open spec fn open_flags_all() -> u32 {
    O_WRONLY | O_RDWR | O_CREATE | O_TRUNC
}

/// Whether the file is opened for reading and for writing: no flag means
/// read-only, `O_WRONLY` write-only, anything else both.
pub open spec fn read_write_spec(bits: u32) -> (bool, bool) {
    if bits == 0 {
        (true, false)
    } else if bits & O_WRONLY == O_WRONLY {
        (false, true)
    } else {
        (true, true)
    }
}

/// A file is readable unless opened write-only, and writable under any flag
/// (no flag at all means read-only); `O_CREATE` and `O_TRUNC` do not change
/// the access of a non-empty set of flags.
pub proof fn lemma_access_of_flags(bits: u32)
    ensures
        read_write_spec(bits).0 == (bits & O_WRONLY == 0),
        read_write_spec(bits).1 == (bits != 0),
        bits != 0 ==> read_write_spec(bits | O_CREATE) == read_write_spec(bits),
        bits != 0 ==> read_write_spec(bits | O_TRUNC) == read_write_spec(bits),
{
    assert(bits == 0 ==> bits & 1 == 0) by (bit_vector);
    assert(bits & 1 == 1 <==> bits & 1 != 0) by (bit_vector);
    assert((bits | 0x200) != 0 && ((bits | 0x200) & 1 == bits & 1)) by (bit_vector);
    assert((bits | 0x400) != 0 && ((bits | 0x400) & 1 == bits & 1)) by (bit_vector);
}

impl OpenFlags {
    /// The flags of `bits`, or `None` if `bits` has a bit that names no flag.
    pub fn from_bits(bits: u32) -> (r: Option<Self>)
        ensures
            r.is_some() <==> bits & !open_flags_all() == 0,
            r.is_some() <==> bits & 0xffff_f9fc == 0,
            r.is_some() ==> r.unwrap().bits == bits,
    {
        proof {
            assert(bits & !(1u32 | 2u32 | 0x200u32 | 0x400u32) == bits & 0xffff_f9fc) by (bit_vector);
        }
        if bits & !(O_WRONLY | O_RDWR | O_CREATE | O_TRUNC) == 0 {
            Some(OpenFlags { bits })
        } else {
            None
        }
    }

    pub fn is_empty(&self) -> (b: bool)
        ensures
            b == (self.bits == 0),
    {
        self.bits == 0
    }

    /// Whether all bits of `flag` are set.
    pub fn contains(&self, flag: u32) -> (b: bool)
        ensures
            b == (self.bits & flag == flag),
    {
        self.bits & flag == flag
    }

    /// `(readable, writable)`; validity is not checked.
    pub fn read_write(&self) -> (r: (bool, bool))
        ensures
            r == read_write_spec(self.bits),
            r.0 == (self.bits & O_WRONLY == 0),
            r.1 == (self.bits != 0),
    {
        proof {
            lemma_access_of_flags(self.bits);
        }
        if self.is_empty() {
            (true, false)
        } else if self.contains(O_WRONLY) {
            (false, true)
        } else {
            (true, true)
        }
    }
}

/// What to do with the root directory to open a file.
#[derive(Clone, Copy, PartialEq, Eq, Structural, Debug)]
pub enum OpenAction {
    /// Open the existing file and clear its contents.
    ClearExisting,
    /// Open the existing file as it is.
    OpenExisting,
    /// Create the file and open it; opening fails if creation does.
    CreateNew,
    /// Opening fails: the file does not exist.
    Fail,
}

/// The plan for opening a file, and the access the open file grants.
#[derive(Clone, Copy, PartialEq, Eq, Structural, Debug)]
pub struct OpenPlan {
    pub action: OpenAction,
    pub readable: bool,
    pub writable: bool,
}

/// How to open a file with `flags` when the root directory has (`found`) or
/// has not got a file of that name: with `O_CREATE` an existing file is
/// cleared and a missing one created; without it a missing file cannot be
/// opened and an existing one is cleared only with `O_TRUNC`.
pub fn open_file(flags: OpenFlags, found: bool) -> (plan: OpenPlan)
    ensures
        (plan.readable, plan.writable) == read_write_spec(flags.bits),
        plan.readable == (flags.bits & O_WRONLY == 0),
        plan.writable == (flags.bits != 0),
        plan.action == (if flags.bits & O_CREATE == O_CREATE {
            if found { OpenAction::ClearExisting } else { OpenAction::CreateNew }
        } else if !found {
            OpenAction::Fail
        } else if flags.bits & O_TRUNC == O_TRUNC {
            OpenAction::ClearExisting
        } else {
            OpenAction::OpenExisting
        }),
{
    let (readable, writable) = flags.read_write();
    let action = if flags.contains(O_CREATE) {
        if found {
            OpenAction::ClearExisting
        } else {
            OpenAction::CreateNew
        }
    } else if !found {
        OpenAction::Fail
    } else if flags.contains(O_TRUNC) {
        OpenAction::ClearExisting
    } else {
        OpenAction::OpenExisting
    };
    OpenPlan { action, readable, writable }
}

/// The outcome of linking a name to an existing file.
#[derive(Clone, Copy, PartialEq, Eq, Structural, Debug)]
pub struct LinkOutcome {
    /// 0 on success, -1 on failure.
    pub ret: isize,
    /// The new link count of the file, if it changes.
    pub set_nlink: Option<u32>,
    /// Whether the new name is added to the directory.
    pub add_entry: bool,
}

/// What linking to a file with link count `old_nlink` does.
pub open spec fn link_spec(old_nlink: Option<u32>) -> LinkOutcome {
    match old_nlink {
        Some(n) => LinkOutcome { ret: 0, set_nlink: Some((n + 1) as u32), add_entry: true },
        None => LinkOutcome { ret: -1isize, set_nlink: None, add_entry: false },
    }
}

/// Linking a new name to an existing file always succeeds, raises its link
/// count by one and adds the name; with no such file it fails and changes
/// nothing.
pub proof fn lemma_link_counts(n: u32)
    requires
        1 <= n < u32::MAX,
    ensures
        link_spec(Some(n)).ret == 0,
        link_spec(Some(n)).set_nlink == Some((n + 1) as u32),
        link_spec(Some(n)).add_entry,
        link_spec(None).ret == -1,
        link_spec(None).set_nlink.is_none(),
        !link_spec(None).add_entry,
{
}

/// Links a new name to the file whose link count is `old_nlink` (`None`: no
/// file of the old name): the count grows by one and the name is added.
pub fn link(old_nlink: Option<u32>) -> (r: LinkOutcome)
    requires
        old_nlink.is_some() ==> 1 <= old_nlink.unwrap() < u32::MAX,
    ensures
        r == link_spec(old_nlink),
{
    match old_nlink {
        Some(nlink) => LinkOutcome { ret: 0, set_nlink: Some(nlink + 1), add_entry: true },
        None => LinkOutcome { ret: -1, set_nlink: None, add_entry: false },
    }
}

/// The outcome of unlinking a name.
#[derive(Clone, Copy, PartialEq, Eq, Structural, Debug)]
pub struct UnlinkOutcome {
    /// 0 on success, -1 on failure.
    pub ret: isize,
    /// The new link count of the file, if it changes.
    pub set_nlink: Option<u32>,
    /// Whether the name is removed from the directory.
    pub remove_name: bool,
    /// Whether the file's data is cleared: its last name is gone.
    pub clear_data: bool,
}

/// What unlinking a name of a file with link count `nlink` does: the name
/// goes and the count drops by one; the last link also clears the data.
pub open spec fn unlink_spec(nlink: Option<u32>) -> UnlinkOutcome {
    match nlink {
        Some(n) => UnlinkOutcome { ret: 0, set_nlink: Some((n - 1) as u32), remove_name: true, clear_data: n == 1 },
        None => UnlinkOutcome { ret: -1isize, set_nlink: None, remove_name: false, clear_data: false },
    }
}

/// Unlinking a name of an existing file always succeeds, lowers its link
/// count by one and removes the name, and clears the data exactly when it
/// was the last name; with no such file it fails and changes nothing.
pub proof fn lemma_unlink_counts(n: u32)
    requires
        n >= 1,
    ensures
        unlink_spec(Some(n)).ret == 0,
        unlink_spec(Some(n)).set_nlink == Some((n - 1) as u32),
        unlink_spec(Some(n)).remove_name,
        unlink_spec(Some(n)).clear_data == (n == 1),
        unlink_spec(None).ret == -1,
        unlink_spec(None).set_nlink.is_none(),
        !unlink_spec(None).remove_name && !unlink_spec(None).clear_data,
{
}

/// Unlinks a name from the file whose link count is `nlink` (`None`: no such
/// file): the name is removed and the count drops by one; removing the last
/// name also clears the file's data.
pub fn unlink(nlink: Option<u32>) -> (r: UnlinkOutcome)
    requires
        nlink.is_some() ==> nlink.unwrap() >= 1,
    ensures
        r == unlink_spec(nlink),
{
    match nlink {
        Some(n) => UnlinkOutcome { ret: 0, set_nlink: Some(n - 1), remove_name: true, clear_data: n == 1 },
        None => UnlinkOutcome { ret: -1, set_nlink: None, remove_name: false, clear_data: false },
    }
}

/// Linking a file and then unlinking a name of it gives back its link count,
/// removes that name and keeps the data; unlinking the only name also
/// clears the data.
pub proof fn lemma_link_unlink(n: u32)
    requires
        1 <= n < u32::MAX,
    ensures
        unlink_spec(link_spec(Some(n)).set_nlink)
            == (UnlinkOutcome { ret: 0, set_nlink: Some(n), remove_name: true, clear_data: false }),
        unlink_spec(Some(1)).remove_name && unlink_spec(Some(1)).clear_data,
{
}

/// A directory entry.
pub const STAT_DIR: u32 = 0o040000;
/// A regular file.
pub const STAT_FILE: u32 = 0o100000;

/// The status of a file as `fstat` reports it.
#[derive(Clone, Copy, PartialEq, Eq, Debug)]
pub struct Stat {
    pub dev: u64,
    pub ino: u64,
    pub mode: u32,
    pub nlink: u32,
    pub pad: [u64; 7],
}

/// The status of the regular file with inode number `ino` and `nlink` links.
pub fn file_stat(ino: u64, nlink: u32) -> (s: Stat)
    ensures
        s.dev == 0,
        s.ino == ino,
        s.mode == STAT_FILE,
        s.nlink == nlink,
        s.pad@ == Seq::new(7, |i: int| 0u64),
{
    let s = Stat { dev: 0, ino, mode: STAT_FILE, nlink, pad: [0u64; 7] };
    assert(s.pad@ =~= Seq::new(7, |i: int| 0u64));
    s
}

/// An open file: whether it may be read and written, and the offset of the
/// next read or write.
#[derive(Clone, Copy, PartialEq, Eq, Structural, Debug)]
pub struct OSInode {
    pub readable: bool,
    pub writable: bool,
    pub offset: usize,
}

impl OSInode {
    /// A file opened with the given access, at offset 0.
    pub fn new(readable: bool, writable: bool) -> (f: Self)
        ensures
            f == (OSInode { readable, writable, offset: 0 }),
    {
        OSInode { readable, writable, offset: 0 }
    }

    pub fn readable(&self) -> (b: bool)
        ensures
            b == self.readable,
    {
        self.readable
    }

    pub fn writable(&self) -> (b: bool)
        ensures
            b == self.writable,
    {
        self.writable
    }

    /// Moves the offset past `n` bytes read or written.
    pub fn advance(&mut self, n: usize)
        requires
            old(self).offset + n <= usize::MAX,
        ensures
            *final(self) == (OSInode { offset: (old(self).offset + n) as usize, ..*old(self) }),
    {
        self.offset = self.offset + n;
    }
}

/// An entry of the descriptor table: the access it grants and the open file
/// it refers to.
#[derive(Clone, Copy, PartialEq, Eq, Structural, Debug)]
pub struct FileDesc {
    pub readable: bool,
    pub writable: bool,
    pub file: usize,
}

/// The table of file descriptors of a process: descriptor `fd` is entry `fd`.
pub struct FdTable {
    pub fds: Vec<Option<FileDesc>>,
}

impl View for FdTable {
    type V = Seq<Option<FileDesc>>;

    open spec fn view(&self) -> Seq<Option<FileDesc>> {
        self.fds@
    }
}

/// The lowest free descriptor of `t`: the first empty entry, or one past the end.
pub open spec fn lowest_free_fd(t: Seq<Option<FileDesc>>) -> int {
    if exists|i: int| 0 <= i < t.len() && t[i].is_none() {
        choose|i: int| 0 <= i < t.len() && t[i].is_none() && forall|j: int| 0 <= j < i ==> t[j].is_some()
    } else {
        t.len() as int
    }
}

impl FdTable {
    /// An empty table.
    pub fn new() -> (t: Self)
        ensures
            t@ == Seq::<Option<FileDesc>>::empty(),
    {
        FdTable { fds: Vec::new() }
    }

    /// The table with `fds` as its entries.
    pub fn from_entries(fds: Vec<Option<FileDesc>>) -> (t: Self)
        ensures
            t@ == fds@,
    {
        FdTable { fds }
    }

    pub fn len(&self) -> (n: usize)
        ensures
            n == self@.len(),
    {
        self.fds.len()
    }

    /// The entry of `fd`, if `fd` is in the table.
    pub fn get(&self, fd: usize) -> (r: Option<FileDesc>)
        ensures
            r == (if fd < self@.len() { self@[fd as int] } else { None }),
    {
        if fd < self.fds.len() {
            self.fds[fd]
        } else {
            None
        }
    }

    /// A free descriptor: the first empty entry, or a new entry at the end.
    pub fn alloc_fd(&mut self) -> (fd: usize)
        ensures
            fd == lowest_free_fd(old(self)@),
            fd <= old(self)@.len(),
            fd < final(self)@.len(),
            final(self)@[fd as int].is_none(),
            fd < old(self)@.len() ==> final(self)@ == old(self)@,
            fd == old(self)@.len() ==> final(self)@ == old(self)@.push(None),
    {
        let mut i: usize = 0;
        while i < self.fds.len()
            invariant
                i <= self@.len(),
                self@ == old(self)@,
                forall|j: int| 0 <= j < i ==> self@[j].is_some(),
            decreases self@.len() - i,
        {
            if self.fds[i].is_none() {
                proof {
                    let t = old(self)@;
                    assert(t[i as int].is_none());
                    let c = choose|k: int| 0 <= k < t.len() && t[k].is_none() && forall|j: int| 0 <= j < k ==> t[j].is_some();
                    assert(c == i) by {
                        if c < i {
                            assert(t[c].is_some());
                        }
                        if c > i {
                            assert(t[i as int].is_some());
                        }
                    }
                }
                return i;
            }
            i = i + 1;
        }
        self.fds.push(None);
        self.fds.len() - 1
    }

    /// Puts `file` at descriptor `fd`.
    pub fn install(&mut self, fd: usize, file: FileDesc)
        requires
            fd < old(self)@.len(),
        ensures
            final(self)@ == old(self)@.update(fd as int, Some(file)),
    {
        self.fds.set(fd, Some(file));
    }

    /// Empties descriptor `fd`.
    pub fn take(&mut self, fd: usize)
        requires
            fd < old(self)@.len(),
        ensures
            final(self)@ == old(self)@.update(fd as int, None),
    {
        self.fds.set(fd, None);
    }
}

} // verus!
