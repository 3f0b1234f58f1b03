//! Reading the ELF header and program headers of an application image,
//! through the `xmas_elf` parser.
use vstd::prelude::*;

verus! {

/// The fields of an ELF header that loading uses.
#[derive(Clone, Copy, Debug)]
pub struct ElfHeaderInfo {
    pub magic: [u8; 4],
    pub is_64: bool,
    pub ph_count: u16,
    pub ph_offset: u64,
    pub ph_entry_size: u16,
    pub entry_point: u64,
}

/// The type of a program header, as far as loading cares.
#[derive(Clone, Copy, PartialEq, Eq, Structural, Debug)]
pub enum SegmentKind {
    /// A loadable segment.
    Load,
    /// Another valid type.
    Other,
    /// A type value that ELF does not define.
    Invalid,
}

/// The fields of a program header that loading uses.
#[derive(Clone, Copy, PartialEq, Eq, Structural, Debug)]
pub struct ProgramSegment {
    pub kind: SegmentKind,
    pub vaddr: u64,
    pub mem_size: u64,
    pub offset: u64,
    pub file_size: u64,
    pub flags: u32,
}

/// What `xmas_elf` reads as the header of the image `data`.
pub uninterp spec fn elf_header_of(data: Seq<u8>) -> Option<ElfHeaderInfo>;

/// What `xmas_elf` reads as program header `index` of the image `data`.
pub uninterp spec fn elf_program_header_of(data: Seq<u8>, index: u16) -> Option<ProgramSegment>;

/// The ELF magic number.
pub open spec fn elf_magic() -> Seq<u8> {
    seq![0x7fu8, 0x45u8, 0x4cu8, 0x46u8]
}

/// The image starts with the magic number and a known class (32 or 64 bit).
pub open spec fn elf_ident_ok(data: Seq<u8>) -> bool {
    &&& data.len() >= 16
    &&& data.subrange(0, 4) == elf_magic()
    &&& (data[4] == 1u8 || data[4] == 2u8)
}

/// The image is long enough for the header that its class announces.
pub open spec fn elf_header_readable(data: Seq<u8>) -> bool {
    elf_ident_ok(data) ==> if data[4] == 1u8 { data.len() >= 52 } else { data.len() >= 64 }
}

/// Whether program header `index` exists according to the header.
pub open spec fn ph_present(h: ElfHeaderInfo, index: u16) -> bool {
    index < h.ph_count && h.ph_offset > 0 && h.ph_entry_size > 0
}

/// The alignment that a program header of the class needs: 8 bytes for
/// 64-bit files, 4 for 32-bit ones.
pub open spec fn ph_align(h: ElfHeaderInfo) -> int {
    if h.is_64 { 8 } else { 4 }
}

/// A present program header `index` lies within the image, is large enough
/// for the entry format of its class, and starts at an offset aligned for it.
pub open spec fn ph_readable(h: ElfHeaderInfo, index: u16, len: nat) -> bool {
    ph_present(h, index) ==> {
        &&& h.ph_offset + index * h.ph_entry_size + h.ph_entry_size <= len
        &&& h.ph_entry_size >= (if h.is_64 { 56int } else { 32int })
        &&& (h.ph_offset + index * h.ph_entry_size) % ph_align(h) == 0
    }
}

/// Reads the header of an ELF image with `xmas_elf::ElfFile::new`.
///
/// The parser reads the header in place and asserts that it lies aligned in
/// memory, so the call is made on a copy of the image placed at an 8-byte
/// aligned address (a change of where the bytes lie, not of the bytes).
///
/// Stated of the call: it succeeds exactly when the image starts with the
/// magic number and a 32- or 64-bit class, and then the magic field holds the
/// magic number and the class decides `is_64`; the other fields are what the
/// parser reads (`elf_header_of`).
#[verifier::external_body]
fn read_elf_header(data: &[u8]) -> (r: Option<ElfHeaderInfo>)
    requires
        elf_header_readable(data@),
    ensures
        r == elf_header_of(data@),
        r.is_some() <==> elf_ident_ok(data@),
        r.is_some() ==> r.unwrap().magic@ == elf_magic() && r.unwrap().is_64 == (data@[4] == 2u8),
{
    let mut buf = vec![0u8; data.len() + 7];
    let k = (8 - (buf.as_ptr() as usize) % 8) % 8;
    buf[k..k + data.len()].copy_from_slice(data);
    match xmas_elf::ElfFile::new(&buf[k..k + data.len()]) {
        Ok(elf) => Some(ElfHeaderInfo {
            magic: elf.header.pt1.magic, is_64: matches!(elf.header.pt1.class(), xmas_elf::header::Class::SixtyFour),
            ph_count: elf.header.pt2.ph_count(), ph_offset: elf.header.pt2.ph_offset(),
            ph_entry_size: elf.header.pt2.ph_entry_size(), entry_point: elf.header.pt2.entry_point(),
        }),
        Err(_) => None,
    }
}

/// Reads program header `index` of an ELF image with
/// `xmas_elf::ElfFile::program_header`, on the file that
/// `xmas_elf::ElfFile::new` opens.
///
/// As for `read_elf_header`, the call is made on a copy of the image placed
/// at an 8-byte aligned address; `ph_readable` asks for the entry's offset in
/// the image to be aligned for its class, so the entry lies aligned too.
///
/// Stated of the call: it yields a header exactly when the image has a
/// readable header and that header announces program header `index`; its
/// fields are what the parser reads (`elf_program_header_of`), the type
/// mapped to `Load`, another valid type, or an undefined one.
#[verifier::external_body]
fn read_program_header(data: &[u8], index: u16) -> (r: Option<ProgramSegment>)
    requires
        elf_header_readable(data@),
        match elf_header_of(data@) {
            Some(h) => ph_readable(h, index, data@.len()),
            None => true,
        },
    ensures
        r == elf_program_header_of(data@, index),
        match elf_header_of(data@) {
            Some(h) => r.is_some() <==> ph_present(h, index),
            None => r.is_none(),
        },
{
    let mut buf = vec![0u8; data.len() + 7];
    let k = (8 - (buf.as_ptr() as usize) % 8) % 8;
    buf[k..k + data.len()].copy_from_slice(data);
    match xmas_elf::ElfFile::new(&buf[k..k + data.len()]).and_then(|elf| elf.program_header(index)) {
        Ok(ph) => Some(ProgramSegment {
            kind: match ph.get_type() {
                Ok(xmas_elf::program::Type::Load) => SegmentKind::Load, Ok(_) => SegmentKind::Other, Err(_) => SegmentKind::Invalid,
            },
            vaddr: ph.virtual_addr(), mem_size: ph.mem_size(), offset: ph.offset(),
            file_size: ph.file_size(), flags: ph.flags().0,
        }),
        Err(_) => None,
    }
}

/// Whether the program header grants reads (`xmas_elf`'s `Flags::is_read`).
pub open spec fn flag_read(flags: u32) -> bool {
    flags & 4 == 4
}

/// Whether the program header grants writes (`xmas_elf`'s `Flags::is_write`).
pub open spec fn flag_write(flags: u32) -> bool {
    flags & 2 == 2
}

/// Whether the program header grants execution (`xmas_elf`'s `Flags::is_execute`).
pub open spec fn flag_execute(flags: u32) -> bool {
    flags & 1 == 1
}

/// Whether `PF_R` (4) is set in the program header flags.
pub fn is_read(flags: u32) -> (b: bool)
    ensures
        b == flag_read(flags),
        b == (flags & 4 != 0),
{
    assert(flags & 4 == 4 <==> flags & 4 != 0) by (bit_vector);
    flags & 4 == 4
}

/// Whether `PF_W` (2) is set in the program header flags.
pub fn is_write(flags: u32) -> (b: bool)
    ensures
        b == flag_write(flags),
        b == (flags & 2 != 0),
{
    assert(flags & 2 == 2 <==> flags & 2 != 0) by (bit_vector);
    flags & 2 == 2
}

/// Whether `PF_X` (1) is set in the program header flags.
pub fn is_execute(flags: u32) -> (b: bool)
    ensures
        b == flag_execute(flags),
        b == (flags & 1 != 0),
{
    assert(flags & 1 == 1 <==> flags & 1 != 0) by (bit_vector);
    flags & 1 == 1
}

/// Each access right of a program header is one bit of its flags, as ELF
/// defines them: `PF_X` = 1, `PF_W` = 2, `PF_R` = 4, each independent of the
/// others.
pub proof fn lemma_segment_flag_bits(flags: u32)
    ensures
        flag_execute(flags) == (flags & 1 != 0),
        flag_write(flags) == (flags & 2 != 0),
        flag_read(flags) == (flags & 4 != 0),
{
    assert(flags & 1 == 1 <==> flags & 1 != 0) by (bit_vector);
    assert(flags & 2 == 2 <==> flags & 2 != 0) by (bit_vector);
    assert(flags & 4 == 4 <==> flags & 4 != 0) by (bit_vector);
}

/// The image has a readable header, and each program header it announces
/// is present and can be read.
pub open spec fn elf_headers_readable(data: Seq<u8>) -> bool {
    &&& elf_header_readable(data)
    &&& elf_header_of(data).is_some()
    &&& forall|i: u16| i < elf_header_of(data).unwrap().ph_count
        ==> #[trigger] ph_readable(elf_header_of(data).unwrap(), i, data.len())
            && ph_present(elf_header_of(data).unwrap(), i)
}

/// The program headers of the image, in order.
pub open spec fn elf_segments(data: Seq<u8>) -> Seq<ProgramSegment> {
    Seq::new(elf_header_of(data).unwrap().ph_count as nat, |i: int| elf_program_header_of(data, i as u16).unwrap())
}

fn check_header_readable(data: &[u8]) -> (b: bool)
    ensures
        b == elf_header_readable(data@),
{
    if data.len() < 16 {
        return true;
    }
    let ident_ok = data[0] == 0x7f && data[1] == 0x45 && data[2] == 0x4c && data[3] == 0x46
        && (data[4] == 1 || data[4] == 2);
    proof {
        assert(ident_ok == elf_ident_ok(data@)) by {
            if ident_ok {
                assert(data@.subrange(0, 4) =~= elf_magic());
            }
            if elf_ident_ok(data@) {
                assert(data@.subrange(0, 4)[1] == data@[1]);
                assert(data@.subrange(0, 4)[2] == data@[2]);
                assert(data@.subrange(0, 4)[3] == data@[3]);
                assert(data@.subrange(0, 4)[0] == data@[0]);
            }
        }
    }
    if !ident_ok {
        true
    } else if data[4] == 1 {
        data.len() >= 52
    } else {
        data.len() >= 64
    }
}

fn check_ph_readable(h: &ElfHeaderInfo, index: u16, len: usize) -> (b: bool)
    ensures
        b == ph_readable(*h, index, len as nat),
{
    if !(index < h.ph_count && h.ph_offset > 0 && h.ph_entry_size > 0) {
        return true;
    }
    proof {
        assert(index as u128 * h.ph_entry_size as u128 <= 0x1_0000_0000) by (nonlinear_arith)
            requires index <= 0xffff, h.ph_entry_size <= 0xffff;
    }
    let start: u128 = h.ph_offset as u128 + index as u128 * h.ph_entry_size as u128;
    let end: u128 = start + h.ph_entry_size as u128;
    let min_size: u16 = if h.is_64 { 56 } else { 32 };
    let align: u128 = if h.is_64 { 8 } else { 4 };
    end <= len as u128 && h.ph_entry_size >= min_size && start % align == 0
}

/// Reads the header and every program header of the image; `None` when the
/// header cannot be read, or a program header that it announces is absent or
/// out of the image.
pub fn read_elf(data: &[u8]) -> (r: Option<(ElfHeaderInfo, Vec<ProgramSegment>)>)
    ensures
        r.is_some() <==> elf_headers_readable(data@),
        r.is_some() ==> {
            &&& r.unwrap().0 == elf_header_of(data@).unwrap()
            &&& r.unwrap().0.magic@ == elf_magic()
            &&& r.unwrap().1@ == elf_segments(data@)
        },
{
    if !check_header_readable(data) {
        return None;
    }
    let header = match read_elf_header(data) {
        Some(h) => h,
        None => return None,
    };
    let mut segments: Vec<ProgramSegment> = Vec::new();
    let mut i: u16 = 0;
    while i < header.ph_count
        invariant
            Some(header) == elf_header_of(data@),
            elf_header_readable(data@),
            i <= header.ph_count,
            segments@.len() == i,
            forall|j: int| 0 <= j < i ==> #[trigger] segments@[j] == elf_program_header_of(data@, j as u16).unwrap(),
            forall|j: u16| j < i ==> #[trigger] ph_readable(header, j, data@.len()) && ph_present(header, j),
        decreases header.ph_count - i,
    {
        if !check_ph_readable(&header, i, data.len()) {
            proof {
                assert(!ph_readable(elf_header_of(data@).unwrap(), i, data@.len()));
            }
            return None;
        }
        match read_program_header(data, i) {
            Some(ph) => {
                segments.push(ph);
            },
            None => {
                proof {
                    assert(!ph_present(elf_header_of(data@).unwrap(), i));
                    assert(ph_readable(elf_header_of(data@).unwrap(), i, data@.len()));
                }
                return None;
            },
        }
        i = i + 1;
    }
    proof {
        assert(segments@ =~= elf_segments(data@));
    }
    Some((header, segments))
}

} // verus!
