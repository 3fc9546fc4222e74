//! The ELF64 headers that the packer reads and rewrites.
//!
//! A header is held as a plain value: the fields that the packer looks at,
//! read from their fixed places in the file image. The image itself stays a
//! byte buffer; `fetch_headers` reads the headers out of it.
use vstd::prelude::*;
use crate::bytes::{le_u16, le_u32, le_u64, same_bytes};
use crate::bytes::{lemma_le_u16_same, lemma_le_u32_same, lemma_le_u64_same};
use crate::bytes::{read_u16, read_u32, read_u64};

verus! {

/// Size of the ELF64 file header.
pub const EHDR_SIZE: usize = 64;

/// Size of one ELF64 program header.
pub const PHDR_SIZE: usize = 56;

/// Size of one ELF64 section header.
pub const SHDR_SIZE: usize = 64;

/// The four bytes `0x7f 'E' 'L' 'F'`, read as a little-endian word.
pub const ELF_MAGIC: u32 = 0x464c_457f;

/// `e_ident[EI_CLASS]` of a 64-bit object.
pub const ELFCLASS64: u8 = 2;

/// `e_ident[EI_DATA]` of a little-endian object.
pub const ELFDATA2LSB: u8 = 1;

/// `e_type` of an executable linked at a fixed address.
pub const ET_EXEC: u16 = 2;

/// `e_type` of a position-independent executable.
pub const ET_DYN: u16 = 3;

/// `e_machine` of x86_64.
pub const EM_X86_64: u16 = 62;

/// `p_type` of a segment that the loader maps.
pub const PT_LOAD: u32 = 1;

/// `p_flags` bit of an executable segment.
pub const PF_X: u32 = 1;

/// `p_flags` bit of a writable segment.
pub const PF_W: u32 = 2;

/// `p_flags` bit of a readable segment.
pub const PF_R: u32 = 4;

/// `sh_type` of a section that holds program data.
pub const SHT_PROGBITS: u32 = 1;

/// Why an image was refused.
#[derive(Clone, Copy, Debug, PartialEq, Eq, Structural)]
pub enum Error {
    /// The image is shorter than a file header or does not start with the ELF magic.
    NotAnElf,
    /// The image is not a 64-bit object.
    InvalidClass,
    /// The image is not little-endian.
    InvalidEndianness,
    /// The image is neither kind of executable, or has no entry point.
    InvalidType,
    /// The image is not for x86_64.
    InvalidArchitecture,
    /// A header names a range that ends at this offset, beyond the image.
    /// An end that no `usize` can hold is reported as `usize::MAX`.
    InvalidOffset(usize),
    /// No loadable segment is executable.
    NoExecSegment,
    /// The stub cannot reach what it must address with a signed 32-bit displacement.
    JumpOutOfRange,
}

/// The fields of the file header that the packer reads.
#[derive(Clone, Copy, Debug, PartialEq, Eq, Structural)]
pub struct Ehdr {
    /// The first four bytes of `e_ident`, as a little-endian word.
    pub e_magic: u32,
    /// `e_ident[EI_CLASS]`.
    pub e_class: u8,
    /// `e_ident[EI_DATA]`.
    pub e_data: u8,
    pub e_type: u16,
    pub e_machine: u16,
    pub e_entry: u64,
    pub e_phoff: u64,
    pub e_shoff: u64,
    pub e_phentsize: u16,
    pub e_phnum: u16,
    pub e_shentsize: u16,
    pub e_shnum: u16,
}

/// The fields of a program header that the packer reads.
#[derive(Clone, Copy, Debug, PartialEq, Eq, Structural)]
pub struct Phdr {
    pub p_type: u32,
    pub p_flags: u32,
    pub p_offset: u64,
    pub p_vaddr: u64,
    pub p_filesz: u64,
    pub p_memsz: u64,
}

/// The fields of a section header that the packer reads.
#[derive(Clone, Copy, Debug, PartialEq, Eq, Structural)]
pub struct Shdr {
    pub sh_type: u32,
    pub sh_offset: u64,
    pub sh_size: u64,
}

/// The file header that an image of at least `EHDR_SIZE` bytes starts with.
#[verifier::opaque]
pub open spec fn ehdr_of(s: Seq<u8>) -> Ehdr {
    Ehdr {
        e_magic: le_u32(s, 0) as u32,
        e_class: s[4],
        e_data: s[5],
        e_type: le_u16(s, 16) as u16,
        e_machine: le_u16(s, 18) as u16,
        e_entry: le_u64(s, 24) as u64,
        e_phoff: le_u64(s, 32) as u64,
        e_shoff: le_u64(s, 40) as u64,
        e_phentsize: le_u16(s, 54) as u16,
        e_phnum: le_u16(s, 56) as u16,
        e_shentsize: le_u16(s, 58) as u16,
        e_shnum: le_u16(s, 60) as u16,
    }
}

/// The program header whose first byte is at `at`.
#[verifier::opaque]
pub open spec fn phdr_at(s: Seq<u8>, at: int) -> Phdr {
    Phdr {
        p_type: le_u32(s, at) as u32,
        p_flags: le_u32(s, at + 4) as u32,
        p_offset: le_u64(s, at + 8) as u64,
        p_vaddr: le_u64(s, at + 16) as u64,
        p_filesz: le_u64(s, at + 32) as u64,
        p_memsz: le_u64(s, at + 40) as u64,
    }
}

/// The section header whose first byte is at `at`.
#[verifier::opaque]
pub open spec fn shdr_at(s: Seq<u8>, at: int) -> Shdr {
    Shdr {
        sh_type: le_u32(s, at + 4) as u32,
        sh_offset: le_u64(s, at + 24) as u64,
        sh_size: le_u64(s, at + 32) as u64,
    }
}

/// The `count` program headers that lie back to back from `off` on.
pub open spec fn phdr_table(s: Seq<u8>, off: int, count: int) -> Seq<Phdr> {
    Seq::new(count as nat, |i: int| phdr_at(s, off + i * PHDR_SIZE as int))
}

/// The `count` section headers that lie back to back from `off` on.
pub open spec fn shdr_table(s: Seq<u8>, off: int, count: int) -> Seq<Shdr> {
    Seq::new(count as nat, |i: int| shdr_at(s, off + i * SHDR_SIZE as int))
}

/// What the checks on the file header answer: the first of them that fails,
/// in the order magic, class, byte order, type and entry point, machine.
pub open spec fn header_verdict(ehdr: Ehdr) -> Result<(), Error> {
    if ehdr.e_magic != ELF_MAGIC {
        Err(Error::NotAnElf)
    } else if ehdr.e_class != ELFCLASS64 {
        Err(Error::InvalidClass)
    } else if ehdr.e_data != ELFDATA2LSB {
        Err(Error::InvalidEndianness)
    } else if (ehdr.e_type != ET_EXEC && ehdr.e_type != ET_DYN) || ehdr.e_entry == 0 {
        Err(Error::InvalidType)
    } else if ehdr.e_machine != EM_X86_64 {
        Err(Error::InvalidArchitecture)
    } else {
        Ok(())
    }
}

/// Where a table of `count` entries of `entsize` bytes ends if it starts at `off`.
pub open spec fn table_end(off: u64, entsize: int, count: u16) -> int {
    off + entsize * count
}

/// An offset as an error reports it: itself, or `usize::MAX` if it is larger.
pub open spec fn reported_offset(end: int) -> usize {
    if end <= usize::MAX {
        end as usize
    } else {
        usize::MAX
    }
}

/// Where a table fails to lie inside an image of `len` bytes: the end of the
/// table as the header declares it, with entries of `entsize` bytes, or else
/// the end of the table as it is read, with entries of `native` bytes.
pub open spec fn table_overrun(off: u64, entsize: u16, count: u16, native: int, len: int) -> Option<
    int,
> {
    if table_end(off, entsize as int, count) > len {
        Some(table_end(off, entsize as int, count))
    } else if table_end(off, native, count) > len {
        Some(table_end(off, native, count))
    } else {
        None
    }
}

/// The headers of an image, or the reason for which it is refused. The checks
/// come in this order: the length of the image, the file header, the program
/// header table, the section header table.
pub open spec fn parse_headers(s: Seq<u8>) -> Result<(Ehdr, Seq<Phdr>, Seq<Shdr>), Error> {
    if s.len() < EHDR_SIZE {
        Err(Error::NotAnElf)
    } else {
        let ehdr = ehdr_of(s);
        let len = s.len() as int;
        let ph = table_overrun(ehdr.e_phoff, ehdr.e_phentsize, ehdr.e_phnum, PHDR_SIZE as int, len);
        let sh = table_overrun(ehdr.e_shoff, ehdr.e_shentsize, ehdr.e_shnum, SHDR_SIZE as int, len);
        if let Err(e) = header_verdict(ehdr) {
            Err(e)
        } else if let Some(end) = ph {
            Err(Error::InvalidOffset(reported_offset(end)))
        } else if let Some(end) = sh {
            Err(Error::InvalidOffset(reported_offset(end)))
        } else {
            Ok(
                (
                    ehdr,
                    phdr_table(s, ehdr.e_phoff as int, ehdr.e_phnum as int),
                    shdr_table(s, ehdr.e_shoff as int, ehdr.e_shnum as int),
                ),
            )
        }
    }
}

/// Whether an image of `len` bytes holds a file header, `phnum` program
/// headers at the offset that `ehdr` gives and `shnum` section headers at the
/// offset that it gives.
pub open spec fn tables_inside(ehdr: Ehdr, phnum: nat, shnum: nat, len: nat) -> bool {
    &&& EHDR_SIZE <= len
    &&& ehdr.e_phoff + PHDR_SIZE * phnum <= len
    &&& ehdr.e_shoff + SHDR_SIZE * shnum <= len
}

/// Whether a program header describes a loadable segment that may be executed.
pub open spec fn exec_segment(phdr: Phdr) -> bool {
    phdr.p_type == PT_LOAD && phdr.p_flags & PF_X != 0
}

/// Accepts `offset` if it is no larger than `max`.
pub fn bound_check(offset: usize, max: usize) -> (r: Result<(), Error>)
    ensures
        offset <= max ==> r == Ok::<(), Error>(()),
        offset > max ==> r == Err::<(), Error>(Error::InvalidOffset(offset)),
{
    if offset > max {
        Err(Error::InvalidOffset(offset))
    } else {
        Ok(())
    }
}

/// Tells whether `phdr` is a loadable segment with the execute bit set.
pub fn is_exec_segment(phdr: &Phdr) -> (r: bool)
    ensures
        r == exec_segment(*phdr),
{
    phdr.p_type == PT_LOAD && phdr.p_flags & PF_X != 0
}

/// Checks the file header: magic, class, byte order, type and entry point,
/// machine, and reports the first check that fails.
pub fn validate_elf_header(ehdr: &Ehdr) -> (r: Result<(), Error>)
    ensures
        r == header_verdict(*ehdr),
{
    if ehdr.e_magic != ELF_MAGIC {
        return Err(Error::NotAnElf);
    }
    if ehdr.e_class != ELFCLASS64 {
        return Err(Error::InvalidClass);
    }
    if ehdr.e_data != ELFDATA2LSB {
        return Err(Error::InvalidEndianness);
    }
    if (ehdr.e_type != ET_EXEC && ehdr.e_type != ET_DYN) || ehdr.e_entry == 0 {
        return Err(Error::InvalidType);
    }
    if ehdr.e_machine != EM_X86_64 {
        return Err(Error::InvalidArchitecture);
    }
    Ok(())
}

/// Reads the file header from the start of `elf`.
pub fn read_ehdr(elf: &[u8]) -> (ehdr: Ehdr)
    requires
        elf.len() >= EHDR_SIZE,
    ensures
        ehdr == ehdr_of(elf@),
{
    proof {
        reveal(ehdr_of);
    }
    Ehdr {
        e_magic: read_u32(elf, 0),
        e_class: elf[4],
        e_data: elf[5],
        e_type: read_u16(elf, 16),
        e_machine: read_u16(elf, 18),
        e_entry: read_u64(elf, 24),
        e_phoff: read_u64(elf, 32),
        e_shoff: read_u64(elf, 40),
        e_phentsize: read_u16(elf, 54),
        e_phnum: read_u16(elf, 56),
        e_shentsize: read_u16(elf, 58),
        e_shnum: read_u16(elf, 60),
    }
}

/// Reads the program header that starts at `at`.
pub fn read_phdr(elf: &[u8], at: usize) -> (phdr: Phdr)
    requires
        at + PHDR_SIZE <= elf.len(),
    ensures
        phdr == phdr_at(elf@, at as int),
{
    proof {
        reveal(phdr_at);
    }
    Phdr {
        p_type: read_u32(elf, at),
        p_flags: read_u32(elf, at + 4),
        p_offset: read_u64(elf, at + 8),
        p_vaddr: read_u64(elf, at + 16),
        p_filesz: read_u64(elf, at + 32),
        p_memsz: read_u64(elf, at + 40),
    }
}

/// Reads the section header that starts at `at`.
pub fn read_shdr(elf: &[u8], at: usize) -> (shdr: Shdr)
    requires
        at + SHDR_SIZE <= elf.len(),
    ensures
        shdr == shdr_at(elf@, at as int),
{
    proof {
        reveal(shdr_at);
    }
    Shdr {
        sh_type: read_u32(elf, at + 4),
        sh_offset: read_u64(elf, at + 24),
        sh_size: read_u64(elf, at + 32),
    }
}

/// Checks that a table lies inside an image of `len` bytes, both as the
/// header declares it and as it is read.
pub fn check_table(off: u64, entsize: u16, count: u16, native: usize, len: usize) -> (r: Result<
    (),
    Error,
>)
    ensures
        match table_overrun(off, entsize, count, native as int, len as int) {
            Some(end) => r == Err::<(), Error>(Error::InvalidOffset(reported_offset(end))),
            None => r == Ok::<(), Error>(()),
        },
{
    assert(entsize * count <= 0xffff * 0xffff && native * count <= 0xffff_ffff_ffff_ffff * 0xffff)
        by (nonlinear_arith)
        requires
            0 <= entsize <= 0xffff,
            0 <= count <= 0xffff,
            0 <= native <= 0xffff_ffff_ffff_ffff,
    ;
    let declared: u128 = (entsize as u128) * (count as u128);
    let read: u128 = (native as u128) * (count as u128);
    match check_end(off as u128 + declared, len) {
        Err(e) => Err(e),
        Ok(()) => check_end(off as u128 + read, len),
    }
}

/// Accepts a range that ends at `end` if it lies inside an image of `len`
/// bytes.
pub fn check_end(end: u128, len: usize) -> (r: Result<(), Error>)
    ensures
        end <= len ==> r == Ok::<(), Error>(()),
        end > len ==> r == Err::<(), Error>(Error::InvalidOffset(reported_offset(end as int))),
{
    if end > usize::MAX as u128 {
        Err(Error::InvalidOffset(usize::MAX))
    } else {
        bound_check(end as usize, len)
    }
}

/// Reads and checks the headers of an ELF64 image.
///
/// The image is accepted if it is long enough for a file header, the file
/// header passes `validate_elf_header`, and both header tables lie inside the
/// image; the result then holds the file header and every entry of the two
/// tables, in table order. Otherwise the result names the first check that
/// failed.
pub fn fetch_headers(elf: &[u8]) -> (r: Result<(Ehdr, Vec<Phdr>, Vec<Shdr>), Error>)
    ensures
        match r {
            Ok((ehdr, phdrtab, shdrtab)) => parse_headers(elf@) == Ok::<
                (Ehdr, Seq<Phdr>, Seq<Shdr>),
                Error,
            >((ehdr, phdrtab@, shdrtab@)),
            Err(e) => parse_headers(elf@) == Err::<(Ehdr, Seq<Phdr>, Seq<Shdr>), Error>(e),
        },
        r matches Ok((ehdr, phdrtab, shdrtab)) ==> tables_inside(
            ehdr,
            phdrtab@.len(),
            shdrtab@.len(),
            elf@.len(),
        ),
{
    if elf.len() < EHDR_SIZE {
        return Err(Error::NotAnElf);
    }
    let ehdr: Ehdr = read_ehdr(elf);
    match validate_elf_header(&ehdr) {
        Err(e) => {
            return Err(e);
        },
        Ok(()) => {},
    }
    match check_table(ehdr.e_phoff, ehdr.e_phentsize, ehdr.e_phnum, PHDR_SIZE, elf.len()) {
        Err(e) => {
            return Err(e);
        },
        Ok(()) => {},
    }
    let phdrtab: Vec<Phdr> = read_phdr_table(elf, ehdr.e_phoff as usize, ehdr.e_phnum);
    match check_table(ehdr.e_shoff, ehdr.e_shentsize, ehdr.e_shnum, SHDR_SIZE, elf.len()) {
        Err(e) => {
            return Err(e);
        },
        Ok(()) => {},
    }
    let shdrtab: Vec<Shdr> = read_shdr_table(elf, ehdr.e_shoff as usize, ehdr.e_shnum);
    Ok((ehdr, phdrtab, shdrtab))
}

/// Reads `count` program headers that lie back to back from `off` on.
pub fn read_phdr_table(elf: &[u8], off: usize, count: u16) -> (table: Vec<Phdr>)
    requires
        off + PHDR_SIZE * count <= elf.len(),
    ensures
        table@ == phdr_table(elf@, off as int, count as int),
{
    let mut table: Vec<Phdr> = Vec::new();
    let mut i: usize = 0;
    while i < count as usize
        invariant
            i <= count,
            off + PHDR_SIZE * count <= elf.len(),
            table@ == phdr_table(elf@, off as int, i as int),
        decreases count - i,
    {
        table.push(read_phdr(elf, off + i * PHDR_SIZE));
        i += 1;
        assert(table@ =~= phdr_table(elf@, off as int, i as int));
    }
    table
}

/// Reads `count` section headers that lie back to back from `off` on.
pub fn read_shdr_table(elf: &[u8], off: usize, count: u16) -> (table: Vec<Shdr>)
    requires
        off + SHDR_SIZE * count <= elf.len(),
    ensures
        table@ == shdr_table(elf@, off as int, count as int),
{
    let mut table: Vec<Shdr> = Vec::new();
    let mut i: usize = 0;
    while i < count as usize
        invariant
            i <= count,
            off + SHDR_SIZE * count <= elf.len(),
            table@ == shdr_table(elf@, off as int, i as int),
        decreases count - i,
    {
        table.push(read_shdr(elf, off + i * SHDR_SIZE));
        i += 1;
        assert(table@ =~= shdr_table(elf@, off as int, i as int));
    }
    table
}

/// A file header depends on the first `EHDR_SIZE` bytes alone.
pub proof fn lemma_ehdr_same(a: Seq<u8>, b: Seq<u8>)
    requires
        same_bytes(a, 0, b, 0, EHDR_SIZE as int),
    ensures
        ehdr_of(a) == ehdr_of(b),
{
    reveal(ehdr_of);
    assert(a[4] == b[4]);
    assert(a[5] == b[5]);
    assert(same_bytes(a, 0, b, 0, 4));
    lemma_le_u32_same(a, 0, b, 0);
    assert(same_bytes(a, 16, b, 16, 2));
    lemma_le_u16_same(a, 16, b, 16);
    assert(same_bytes(a, 18, b, 18, 2));
    lemma_le_u16_same(a, 18, b, 18);
    assert(same_bytes(a, 24, b, 24, 8));
    lemma_le_u64_same(a, 24, b, 24);
    assert(same_bytes(a, 32, b, 32, 8));
    lemma_le_u64_same(a, 32, b, 32);
    assert(same_bytes(a, 40, b, 40, 8));
    lemma_le_u64_same(a, 40, b, 40);
    assert(same_bytes(a, 54, b, 54, 2));
    lemma_le_u16_same(a, 54, b, 54);
    assert(same_bytes(a, 56, b, 56, 2));
    lemma_le_u16_same(a, 56, b, 56);
    assert(same_bytes(a, 58, b, 58, 2));
    lemma_le_u16_same(a, 58, b, 58);
    assert(same_bytes(a, 60, b, 60, 2));
    lemma_le_u16_same(a, 60, b, 60);
}

/// A program header depends on its `PHDR_SIZE` bytes alone.
pub proof fn lemma_phdr_same(a: Seq<u8>, at: int, b: Seq<u8>, bt: int)
    requires
        same_bytes(a, at, b, bt, PHDR_SIZE as int),
    ensures
        phdr_at(a, at) == phdr_at(b, bt),
{
    reveal(phdr_at);
    assert(same_bytes(a, at, b, bt, 4));
    lemma_le_u32_same(a, at, b, bt);
    assert(same_bytes(a, at + 4, b, bt + 4, 4));
    lemma_le_u32_same(a, at + 4, b, bt + 4);
    assert(same_bytes(a, at + 8, b, bt + 8, 8));
    lemma_le_u64_same(a, at + 8, b, bt + 8);
    assert(same_bytes(a, at + 16, b, bt + 16, 8));
    lemma_le_u64_same(a, at + 16, b, bt + 16);
    assert(same_bytes(a, at + 32, b, bt + 32, 8));
    lemma_le_u64_same(a, at + 32, b, bt + 32);
    assert(same_bytes(a, at + 40, b, bt + 40, 8));
    lemma_le_u64_same(a, at + 40, b, bt + 40);
}

/// A section header depends on its `SHDR_SIZE` bytes alone.
pub proof fn lemma_shdr_same(a: Seq<u8>, at: int, b: Seq<u8>, bt: int)
    requires
        same_bytes(a, at, b, bt, SHDR_SIZE as int),
    ensures
        shdr_at(a, at) == shdr_at(b, bt),
{
    reveal(shdr_at);
    assert(same_bytes(a, at + 4, b, bt + 4, 4));
    lemma_le_u32_same(a, at + 4, b, bt + 4);
    assert(same_bytes(a, at + 24, b, bt + 24, 8));
    lemma_le_u64_same(a, at + 24, b, bt + 24);
    assert(same_bytes(a, at + 32, b, bt + 32, 8));
    lemma_le_u64_same(a, at + 32, b, bt + 32);
}

} // verus!
