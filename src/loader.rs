use vstd::prelude::*;
use crate::memory::{AccessSize, Memory, GUEST_MAX_MEM};

verus! {

/// ELF machine number of RISC-V.
pub const EM_RISCV: u16 = 243;

/// ELF type of an executable.
pub const ET_EXEC: u16 = 2;

/// Program header type of a loadable segment.
pub const PT_LOAD: u32 = 1;

/// The most program headers an image may have.
pub const MAX_PROGRAM_HEADERS: usize = 256;

/// A program header, as plain values.
#[derive(Clone, Copy, Debug, PartialEq, Eq, Structural)]
pub struct Segment {
    pub p_type: u32,
    pub p_offset: u64,
    pub p_vaddr: u64,
    pub p_filesz: u64,
    pub p_memsz: u64,
}

impl Segment {
    pub fn new(p_type: u32, p_offset: u64, p_vaddr: u64, p_filesz: u64, p_memsz: u64) -> (r: Self)
        ensures
            r == (Segment { p_type, p_offset, p_vaddr, p_filesz, p_memsz }),
    {
        Segment { p_type, p_offset, p_vaddr, p_filesz, p_memsz }
    }
}

/// What the loader reads of an ELF file header, as plain values.
pub struct ElfImage {
    pub is_elf32: bool,
    pub machine: u16,
    pub e_type: u16,
    pub entry: u64,
    pub segments: Option<Vec<Segment>>,
}

/// Why an image could not be loaded.
#[derive(Clone, Copy, Debug, PartialEq, Eq, Structural)]
pub enum LoadError {
    Parse,
    NotElf32,
    NotRiscV,
    NotExecutable,
    EntryTooWide,
    InvalidEntry,
    MissingSegments,
    TooManySegments,
    FileSizeTooWide,
    InvalidFileSize,
    MemSizeTooWide,
    InvalidMemSize,
    VaddrTooWide,
    UnalignedVaddr(u32),
    OffsetTooWide,
    AddressOverflow,
    AddressTooHigh(u32),
    InvalidOffset,
}

/// A program header's type, offset, address, file size and memory size.
pub open spec fn seg_fields(s: Segment) -> (u32, u64, u64, u64, u64) {
    (s.p_type, s.p_offset, s.p_vaddr, s.p_filesz, s.p_memsz)
}

/// The image's class check, machine, type, entry and program headers, as plain values.
pub open spec fn image_fields(i: ElfImage) -> (bool, u16, u16, u64, Option<Seq<(u32, u64, u64, u64, u64)>>) {
    (
        i.is_elf32,
        i.machine,
        i.e_type,
        i.entry,
        match i.segments {
            Some(v) => Some(v@.map_values(|s: Segment| seg_fields(s))),
            None => None,
        },
    )
}

/// What the ELF reader finds in `input`: whether the class is 32-bit, the machine, the type,
/// the entry and the program headers (type, offset, address, file size, memory size), in
/// file order.
pub uninterp spec fn elf_of(input: Seq<u8>) -> Option<(bool, u16, u16, u64, Option<Seq<(u32, u64, u64, u64, u64)>>)>;

/// Relies on elf's ElfBytes::minimal_parse (with its header fields and segment table, which
/// are copied out in order): `None` where the bytes are no ELF file it can read; what it reads
/// depends on the bytes alone.
#[verifier::external_body]
fn parse_elf(input: &[u8]) -> (r: Option<ElfImage>)
    ensures
        match r {
            Some(img) => elf_of(input@) == Some(image_fields(img)),
            None => elf_of(input@).is_none(),
        },
{
    let elf = elf::ElfBytes::<elf::endian::LittleEndian>::minimal_parse(input).ok()?;
    let segments = elf.segments().map(
        |t| t.iter().map(|p| Segment::new(p.p_type, p.p_offset, p.p_vaddr, p.p_filesz, p.p_memsz)).collect(),
    );
    let is_elf32 = match elf.ehdr.class {
        elf::file::Class::ELF32 => true,
        elf::file::Class::ELF64 => false,
    };
    Some(ElfImage { is_elf32, machine: elf.ehdr.e_machine, e_type: elf.ehdr.e_type, entry: elf.ehdr.e_entry, segments })
}

/// The error that the file header gives, if any.
pub open spec fn header_error(f: (bool, u16, u16, u64, Option<Seq<(u32, u64, u64, u64, u64)>>)) -> Option<LoadError> {
    if !f.0 {
        Some(LoadError::NotElf32)
    } else if f.1 != EM_RISCV {
        Some(LoadError::NotRiscV)
    } else if f.2 != ET_EXEC {
        Some(LoadError::NotExecutable)
    } else if f.3 > u32::MAX {
        Some(LoadError::EntryTooWide)
    } else if f.3 >= GUEST_MAX_MEM || f.3 % 4 != 0 {
        Some(LoadError::InvalidEntry)
    } else if f.4.is_none() {
        Some(LoadError::MissingSegments)
    } else if f.4.unwrap().len() > MAX_PROGRAM_HEADERS {
        Some(LoadError::TooManySegments)
    } else {
        None
    }
}

/// The first error that writing the words of segment `s` from offset `i` on meets, with
/// `len` bytes of file.
pub open spec fn word_error(s: (u32, u64, u64, u64, u64), len: int, i: int) -> Option<LoadError>
    decreases s.4 + 4 - i,
{
    if i < 0 || i >= s.4 {
        None
    } else if s.2 + i > u32::MAX {
        Some(LoadError::AddressOverflow)
    } else if s.2 + i >= GUEST_MAX_MEM {
        Some(LoadError::AddressTooHigh((s.2 + i) as u32))
    } else if i < s.3 && s.1 + i + (if s.3 - i < 4 { s.3 - i } else { 4 }) > len {
        Some(LoadError::InvalidOffset)
    } else {
        word_error(s, len, i + 4)
    }
}

/// The error that loadable segment `s` gives, if any.
pub open spec fn seg_error(s: (u32, u64, u64, u64, u64), len: int) -> Option<LoadError> {
    if s.3 > u32::MAX {
        Some(LoadError::FileSizeTooWide)
    } else if s.3 >= GUEST_MAX_MEM {
        Some(LoadError::InvalidFileSize)
    } else if s.4 > u32::MAX {
        Some(LoadError::MemSizeTooWide)
    } else if s.4 >= GUEST_MAX_MEM {
        Some(LoadError::InvalidMemSize)
    } else if s.2 > u32::MAX {
        Some(LoadError::VaddrTooWide)
    } else if s.2 % 4 != 0 {
        Some(LoadError::UnalignedVaddr(s.2 as u32))
    } else if s.1 > u32::MAX {
        Some(LoadError::OffsetTooWide)
    } else {
        word_error(s, len, 0)
    }
}

/// The first error among the loadable segments of `segs` from `k` on.
pub open spec fn segs_error(segs: Seq<(u32, u64, u64, u64, u64)>, len: int, k: int) -> Option<LoadError>
    decreases segs.len() - k,
{
    if k < 0 || k >= segs.len() {
        None
    } else if segs[k].0 == PT_LOAD && seg_error(segs[k], len).is_some() {
        seg_error(segs[k], len)
    } else {
        segs_error(segs, len, k + 1)
    }
}

/// What loading gives: the entry, or the first error of the header or of a loadable segment.
pub open spec fn load_outcome(f: (bool, u16, u16, u64, Option<Seq<(u32, u64, u64, u64, u64)>>), len: int) -> Result<u32, LoadError> {
    match header_error(f) {
        Some(e) => Err(e),
        None => match segs_error(f.4.unwrap(), len, 0) {
            Some(e) => Err(e),
            None => Ok(f.3 as u32),
        },
    }
}

/// Whether a loadable segment of `segs` strictly between `k` and `end` covers address `a`.
pub open spec fn covered_between(segs: Seq<(u32, u64, u64, u64, u64)>, k: int, end: int, a: int) -> bool {
    exists|j: int|
        k < j < end && #[trigger] segs[j].0 == PT_LOAD && segs[j].2 <= a < segs[j].2 + segs[j].4
}

/// After loading, each word of each loadable segment in the guest window holds the segment's
/// bytes, unless a later loadable segment covers it.
pub open spec fn loaded_words(m: Memory, input: Seq<u8>, segs: Seq<(u32, u64, u64, u64, u64)>, end: int) -> bool {
    forall|k: int, t: int|
        0 <= k < end && segs[k].0 == PT_LOAD && 0 <= t < segs[k].4 && t % 4 == 0 && 0x400 <= segs[k].2
            + t < 0x0C00_0000 && !covered_between(segs, k, end, segs[k].2 + t) ==> #[trigger] m.word(
            (segs[k].2 + t) as u32,
        ) == segment_word(input, segs[k].1 as int, segs[k].3 as int, t)
}

/// The word that a segment puts at offset `i` of its memory: file bytes up to its file size,
/// zeros after.
pub open spec fn segment_word(input: Seq<u8>, offset: int, filesz: int, i: int) -> u32 {
    let at = |j: int| if i + j < filesz { input[offset + i + j] as u32 } else { 0u32 };
    if i >= filesz {
        0
    } else {
        at(0) | (at(1) << 8) | (at(2) << 16) | (at(3) << 24)
    }
}

/// Parses `input` as an ELF image and loads it into `mem`; returns the entry address.
pub fn load_elf(mem: &mut Memory, input: &[u8]) -> (r: Result<u32, LoadError>)
    requires
        old(mem).wf(),
    ensures
        final(mem).wf(),
        final(mem).hw_watchpoints == old(mem).hw_watchpoints,
        elf_of(input@).is_none() ==> r == Err::<u32, LoadError>(LoadError::Parse),
        elf_of(input@).is_some() ==> r == load_outcome(elf_of(input@).unwrap(), input@.len() as int),
        r.is_ok() ==> loaded_words(
            *final(mem),
            input@,
            elf_of(input@).unwrap().4.unwrap(),
            elf_of(input@).unwrap().4.unwrap().len() as int,
        ),
{
    match parse_elf(input) {
        Some(image) => load_image(mem, input, &image),
        None => Err(LoadError::Parse),
    }
}

/// Checks the header of `image` and writes each loadable segment into `mem` word by word;
/// returns the entry address.
pub fn load_image(mem: &mut Memory, input: &[u8], image: &ElfImage) -> (r: Result<u32, LoadError>)
    requires
        old(mem).wf(),
    ensures
        final(mem).wf(),
        final(mem).hw_watchpoints == old(mem).hw_watchpoints,
        r == load_outcome(image_fields(*image), input@.len() as int),
        header_error(image_fields(*image)).is_some() ==> *final(mem) == *old(mem),
        r.is_ok() ==> loaded_words(
            *final(mem),
            input@,
            image_fields(*image).4.unwrap(),
            image_fields(*image).4.unwrap().len() as int,
        ),
{
    if !image.is_elf32 {
        return Err(LoadError::NotElf32);
    }
    if image.machine != EM_RISCV {
        return Err(LoadError::NotRiscV);
    }
    if image.e_type != ET_EXEC {
        return Err(LoadError::NotExecutable);
    }
    if image.entry > u32::MAX as u64 {
        return Err(LoadError::EntryTooWide);
    }
    let entry = image.entry as u32;
    if entry >= GUEST_MAX_MEM || entry % 4 != 0 {
        return Err(LoadError::InvalidEntry);
    }
    let segments = match &image.segments {
        Some(s) => s,
        None => {
            return Err(LoadError::MissingSegments);
        },
    };
    if segments.len() > MAX_PROGRAM_HEADERS {
        return Err(LoadError::TooManySegments);
    }
    let ghost segs = image_fields(*image).4.unwrap();
    let ghost len = input@.len() as int;
    let mut k: usize = 0;
    while k < segments.len()
        invariant
            k <= segments@.len(),
            segs == segments@.map_values(|s: Segment| seg_fields(s)),
            header_error(image_fields(*image)).is_none(),
            image_fields(*image).4 == Some(segs),
            len == input@.len(),
            mem.wf(),
            mem.hw_watchpoints == old(mem).hw_watchpoints,
            segs_error(segs, len, 0) == segs_error(segs, len, k as int),
            forall|j: int| 0 <= j < k && #[trigger] segs[j].0 == PT_LOAD ==> seg_error(segs[j], len).is_none(),
            loaded_words(*mem, input@, segs, k as int),
        decreases segments@.len() - k,
    {
        let segment = segments[k];
        assert(seg_fields(segment) == segs[k as int]);
        let ghost before = *mem;
        if segment.p_type == PT_LOAD {
            match load_segment(mem, input, segment) {
                Ok(()) => {},
                Err(e) => {
                    return Err(e);
                },
            }
        }
        proof {
            let kk = k as int;
            assert(segs_error(segs, len, kk) == segs_error(segs, len, kk + 1));
            assert forall|j: int, t: int|
                0 <= j < kk + 1 && segs[j].0 == PT_LOAD && 0 <= t < segs[j].4 && t % 4 == 0 && 0x400
                    <= segs[j].2 + t < 0x0C00_0000 && !covered_between(segs, j, kk + 1, segs[j].2 + t)
                implies #[trigger] mem.word((segs[j].2 + t) as u32) == segment_word(
                input@,
                segs[j].1 as int,
                segs[j].3 as int,
                t,
            ) by {
                if j < kk {
                    assert(!covered_between(segs, j, kk, segs[j].2 + t)) by {
                        if covered_between(segs, j, kk, segs[j].2 + t) {
                            let w = choose|w: int|
                                j < w < kk && #[trigger] segs[w].0 == PT_LOAD && segs[w].2 <= segs[j].2 + t
                                    < segs[w].2 + segs[w].4;
                            assert(j < w < kk + 1 && segs[w].0 == PT_LOAD);
                        }
                    }
                    assert(before.word((segs[j].2 + t) as u32) == segment_word(
                        input@,
                        segs[j].1 as int,
                        segs[j].3 as int,
                        t,
                    ));
                    if segs[kk].0 == PT_LOAD {
                        let a = (segs[j].2 + t) as u32;
                        assert(seg_error(segs[j], len).is_none());
                        assert(segs[j].2 % 4 == 0);
                        assert(!(segs[kk].2 <= segs[j].2 + t < segs[kk].2 + segs[kk].4));
                        assert((a & 0xffff_fffc) == a) by (bit_vector)
                            requires
                                a % 4 == 0,
                        ;
                    }
                }
            }
        }
        k += 1;
    }
    proof {
        assert(segs_error(segs, len, segs.len() as int) == None::<LoadError>);
    }
    Ok(entry)
}

/// The word at offset `i` of a segment read from `input`; it needs the segment's file bytes
/// from `i` (at most four) to lie in `input`.
fn segment_word_at(input: &[u8], offset: u32, file_size: u32, i: u32) -> (r: Result<u32, LoadError>)
    requires
        i < file_size,
    ensures
        ({
            let len = if file_size - i < 4 {
                file_size - i
            } else {
                4
            };
            &&& r.is_ok() <==> offset + i + len <= input@.len()
            &&& r.is_err() ==> r == Err::<u32, LoadError>(LoadError::InvalidOffset)
            &&& r.is_ok() ==> r.unwrap() == segment_word(
                input@,
                offset as int,
                file_size as int,
                i as int,
            )
        }),
{
    let len = if file_size - i < 4 {
        file_size - i
    } else {
        4
    };
    if offset as u64 + i as u64 + len as u64 > input.len() as u64 {
        return Err(LoadError::InvalidOffset);
    }
    let base = (offset as u64 + i as u64) as usize;
    let b0 = input[base] as u32;
    let b1 = if len > 1 {
        input[base + 1] as u32
    } else {
        0
    };
    let b2 = if len > 2 {
        input[base + 2] as u32
    } else {
        0
    };
    let b3 = if len > 3 {
        input[base + 3] as u32
    } else {
        0
    };
    Ok(b0 | (b1 << 8) | (b2 << 16) | (b3 << 24))
}

/// Checks one loadable segment and writes its words; past its file size they are zero.
/// Words that fall below the guest window are skipped. Words outside the segment stay.
pub fn load_segment(mem: &mut Memory, input: &[u8], segment: Segment) -> (r: Result<(), LoadError>)
    requires
        old(mem).wf(),
    ensures
        final(mem).wf(),
        final(mem).hw_watchpoints == old(mem).hw_watchpoints,
        r == match seg_error(seg_fields(segment), input@.len() as int) {
            Some(e) => Err::<(), LoadError>(e),
            None => Ok::<(), LoadError>(()),
        },
        forall|a: u32|
            !(segment.p_vaddr <= (a & 0xffff_fffc) < segment.p_vaddr + segment.p_memsz) ==> #[trigger] final(mem).word(a) == old(mem).word(a),
        r.is_ok() ==> forall|t: int|
            0 <= t < segment.p_memsz && t % 4 == 0 && 0x400 <= segment.p_vaddr + t < 0x0C00_0000
                ==> #[trigger] final(mem).word((segment.p_vaddr + t) as u32) == segment_word(
                input@,
                segment.p_offset as int,
                segment.p_filesz as int,
                t,
            ),
{
    if segment.p_filesz > u32::MAX as u64 {
        return Err(LoadError::FileSizeTooWide);
    }
    let file_size = segment.p_filesz as u32;
    if file_size >= GUEST_MAX_MEM {
        return Err(LoadError::InvalidFileSize);
    }
    if segment.p_memsz > u32::MAX as u64 {
        return Err(LoadError::MemSizeTooWide);
    }
    let mem_size = segment.p_memsz as u32;
    if mem_size >= GUEST_MAX_MEM {
        return Err(LoadError::InvalidMemSize);
    }
    if segment.p_vaddr > u32::MAX as u64 {
        return Err(LoadError::VaddrTooWide);
    }
    let vaddr = segment.p_vaddr as u32;
    if vaddr % 4 != 0 {
        return Err(LoadError::UnalignedVaddr(vaddr));
    }
    if segment.p_offset > u32::MAX as u64 {
        return Err(LoadError::OffsetTooWide);
    }
    let offset = segment.p_offset as u32;
    let ghost sf = seg_fields(segment);
    let ghost len = input@.len() as int;
    let mut i: u32 = 0;
    while i < mem_size
        invariant
            mem.wf(),
            mem.hw_watchpoints == old(mem).hw_watchpoints,
            i % 4 == 0,
            file_size < GUEST_MAX_MEM,
            mem_size < GUEST_MAX_MEM,
            file_size as u64 == segment.p_filesz,
            mem_size as u64 == segment.p_memsz,
            vaddr as u64 == segment.p_vaddr,
            offset as u64 == segment.p_offset,
            vaddr % 4 == 0,
            sf == seg_fields(segment),
            len == input@.len(),
            seg_error(sf, len) == word_error(sf, len, i as int),
            forall|a: u32|
                !(vaddr <= (a & 0xffff_fffc) < vaddr + mem_size) ==> #[trigger] mem.word(a) == old(mem).word(a),
            forall|t: int|
                0 <= t < i && t % 4 == 0 && 0x400 <= vaddr + t < 0x0C00_0000 ==> #[trigger] mem.word(
                    (vaddr + t) as u32,
                ) == segment_word(input@, offset as int, file_size as int, t),
        ensures
            seg_error(sf, len).is_none(),
            forall|a: u32|
                !(vaddr <= (a & 0xffff_fffc) < vaddr + mem_size) ==> #[trigger] mem.word(a) == old(mem).word(a),
            forall|t: int|
                0 <= t < mem_size && t % 4 == 0 && 0x400 <= vaddr + t < 0x0C00_0000 ==> #[trigger] mem.word(
                    (vaddr + t) as u32,
                ) == segment_word(input@, offset as int, file_size as int, t),
        decreases mem_size - i,
    {
        if vaddr as u64 + i as u64 > u32::MAX as u64 {
            return Err(LoadError::AddressOverflow);
        }
        let addr = vaddr + i;
        if addr >= GUEST_MAX_MEM {
            return Err(LoadError::AddressTooHigh(addr));
        }
        let word = if i >= file_size {
            0
        } else {
            match segment_word_at(input, offset, file_size, i) {
                Ok(w) => w,
                Err(e) => {
                    return Err(e);
                },
            }
        };
        let ghost before = *mem;
        mem.write_mem_with_privileges(addr, AccessSize::Word, word, false);
        proof {
            assert(word_error(sf, len, i as int) == word_error(sf, len, i + 4));
            assert(addr % 4 == 0);
            assert forall|b: u32| !(vaddr <= (b & 0xffff_fffc) < vaddr + mem_size) implies #[trigger] mem.word(b)
                == old(mem).word(b) by {
                assert((b >> 2 == addr >> 2 && addr & 3 == 0) ==> (b & 0xffff_fffc) == addr) by (bit_vector);
                assert(addr % 4 == 0 ==> addr & 3 == 0) by (bit_vector);
                lemma_word_frame(before, *mem, addr, b, word);
            }
            assert forall|t: int|
                0 <= t < i + 4 && t % 4 == 0 && 0x400 <= vaddr + t < 0x0C00_0000 implies #[trigger] mem.word(
                    (vaddr + t) as u32,
                ) == segment_word(input@, offset as int, file_size as int, t) by {
                let b = (vaddr + t) as u32;
                if t == i {
                    assert(b == addr);
                    assert(crate::memory::in_window(addr));
                    assert(crate::memory::load_value(mem.word(addr), addr, AccessSize::Word) == word);
                } else {
                    assert(b % 4 == 0 && addr % 4 == 0 && b != addr ==> b >> 2 != addr >> 2) by (bit_vector);
                    lemma_word_frame(before, *mem, addr, b, word);
                }
            }
        }
        if mem_size - i < 4 {
            proof {
                assert(word_error(sf, len, i + 4) == None::<LoadError>);
            }
            break;
        }
        i += 4;
    }
    Ok(())
}

/// A word store at `addr` leaves every other word, and puts `word` at `addr` inside the window.
proof fn lemma_word_frame(before: Memory, after: Memory, addr: u32, b: u32, word: u32)
    requires
        crate::memory::in_window(addr) ==> {
            &&& forall|p: u32| p != crate::memory::page_of(addr) ==> #[trigger] after.page(p) == before.page(p)
            &&& after.page(crate::memory::page_of(addr)) == before.page(crate::memory::page_of(addr)).update(
                crate::memory::slot_of(addr),
                crate::memory::store_value(before.word(addr), addr, AccessSize::Word, word),
            )
        },
        !crate::memory::in_window(addr) ==> after == before,
        b >> 2 != addr >> 2,
    ensures
        after.word(b) == before.word(b),
{
    if crate::memory::in_window(addr) {
        crate::memory::lemma_same_word(b, addr);
        let pa = crate::memory::page_of(addr);
        assert((addr & 0x3ff) >> 2 < 256) by (bit_vector);
        assert((b & 0x3ff) >> 2 < 256) by (bit_vector);
        if crate::memory::page_of(b) != pa {
            assert(after.page(crate::memory::page_of(b)) == before.page(crate::memory::page_of(b)));
        } else {
            assert(before.page(pa).len() == 256);
            assert(after.page(pa)[crate::memory::slot_of(b)] == before.page(pa)[crate::memory::slot_of(b)]);
        }
    }
}

} // verus!
