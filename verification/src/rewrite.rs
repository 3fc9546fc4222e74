//! The header rewrite that makes room for one page behind the executable
//! segment.
//!
//! The page is inserted where the segment ends in the file. The segment grows
//! over it and becomes writable, the entry point moves to its first byte, and
//! every file offset at or behind the insertion moves up by one page. Sums
//! are taken modulo 2^64, as the headers hold them.
use vstd::prelude::*;
use crate::bytes::wrapping_sum;
use crate::elf::{exec_segment, is_exec_segment, Ehdr, Phdr, Shdr, PF_W, SHT_PROGBITS};

verus! {

/// Where a page is inserted, and which bytes before it are ciphered.
#[derive(Clone, Copy, Debug, PartialEq, Eq, Structural)]
pub struct Insertion {
    /// Offset of the first ciphered byte.
    pub cipher_off: u64,
    /// Number of ciphered bytes.
    pub cipher_len: u64,
    /// Offset at which the page is inserted.
    pub insert_off: u64,
}

/// Whether `i` is the first entry of `table` that is an executable segment.
pub open spec fn is_first_exec_segment(table: Seq<Phdr>, i: int) -> bool {
    &&& 0 <= i < table.len()
    &&& exec_segment(table[i])
    &&& forall|j: int| 0 <= j < i ==> !exec_segment(#[trigger] table[j])
}

/// Whether `table` holds an executable segment at all.
pub open spec fn has_exec_segment(table: Seq<Phdr>) -> bool {
    exists|i: int| 0 <= i < table.len() && exec_segment(#[trigger] table[i])
}

/// The index of the first executable segment of `table`, if there is one.
pub open spec fn first_exec_segment(table: Seq<Phdr>) -> Option<int> {
    if exists|i: int| is_first_exec_segment(table, i) {
        Some(choose|i: int| is_first_exec_segment(table, i))
    } else {
        None
    }
}

/// The insertion that the executable segment `xphdr` calls for: the page goes
/// where the segment ends in the file, and the segment as it stood is
/// ciphered.
pub open spec fn insertion_for(xphdr: Phdr) -> Insertion {
    Insertion {
        cipher_off: xphdr.p_offset,
        cipher_len: xphdr.p_filesz,
        insert_off: (xphdr.p_offset + xphdr.p_filesz) as u64,
    }
}

/// A file offset after the insertion of `pagesize` bytes at `insert_off`.
pub open spec fn shift_offset(offset: u64, insert_off: u64, pagesize: u64) -> u64 {
    if offset >= insert_off {
        wrapping_sum(offset, pagesize)
    } else {
        offset
    }
}

/// The file header after the rewrite: the entry point is where the segment
/// ended in memory, and both table offsets are shifted.
pub open spec fn rewritten_ehdr(ehdr: Ehdr, xphdr: Phdr, pagesize: u64) -> Ehdr {
    let insert_off = insertion_for(xphdr).insert_off;
    Ehdr {
        e_entry: wrapping_sum(xphdr.p_vaddr, xphdr.p_filesz),
        e_phoff: shift_offset(ehdr.e_phoff, insert_off, pagesize),
        e_shoff: shift_offset(ehdr.e_shoff, insert_off, pagesize),
        ..ehdr
    }
}

/// The executable segment after the rewrite: one page longer in the file and
/// in memory, and writable.
pub open spec fn grown_segment(xphdr: Phdr, pagesize: u64) -> Phdr {
    Phdr {
        p_flags: xphdr.p_flags | PF_W,
        p_offset: shift_offset(xphdr.p_offset, insertion_for(xphdr).insert_off, pagesize),
        p_filesz: wrapping_sum(xphdr.p_filesz, pagesize),
        p_memsz: wrapping_sum(xphdr.p_memsz, pagesize),
        ..xphdr
    }
}

/// Any other program header after the rewrite: its offset is shifted.
pub open spec fn shifted_phdr(phdr: Phdr, insert_off: u64, pagesize: u64) -> Phdr {
    Phdr { p_offset: shift_offset(phdr.p_offset, insert_off, pagesize), ..phdr }
}

/// The program header table after the rewrite, in which entry `x` is the
/// executable segment.
pub open spec fn rewritten_phdrs(table: Seq<Phdr>, x: int, pagesize: u64) -> Seq<Phdr> {
    Seq::new(
        table.len(),
        |i: int|
            if i == x {
                grown_segment(table[x], pagesize)
            } else {
                shifted_phdr(table[i], insertion_for(table[x]).insert_off, pagesize)
            },
    )
}

/// Whether a section of `size` bytes at `offset` lies wholly inside the file
/// range of `segment`.
pub open spec fn section_in_segment(offset: u64, size: u64, segment: Phdr) -> bool {
    segment.p_offset <= offset && offset + size <= segment.p_offset + segment.p_filesz
}

/// A section header after the rewrite: its offset is shifted, and a section
/// of program data that then lies wholly inside the grown segment is one page
/// longer.
pub open spec fn rewritten_shdr(shdr: Shdr, xphdr: Phdr, pagesize: u64) -> Shdr {
    let offset = shift_offset(shdr.sh_offset, insertion_for(xphdr).insert_off, pagesize);
    let grows = shdr.sh_type == SHT_PROGBITS && section_in_segment(
        offset,
        shdr.sh_size,
        grown_segment(xphdr, pagesize),
    );
    Shdr {
        sh_offset: offset,
        sh_size: if grows {
            wrapping_sum(shdr.sh_size, pagesize)
        } else {
            shdr.sh_size
        },
        ..shdr
    }
}

/// The section header table after the rewrite.
pub open spec fn rewritten_shdrs(table: Seq<Shdr>, xphdr: Phdr, pagesize: u64) -> Seq<Shdr> {
    Seq::new(table.len(), |i: int| rewritten_shdr(table[i], xphdr, pagesize))
}

/// Finds the first loadable segment with the execute bit set.
pub fn find_exec_segment(phdrtab: &Vec<Phdr>) -> (r: Option<usize>)
    ensures
        match r {
            Some(i) => first_exec_segment(phdrtab@) == Some(i as int) && is_first_exec_segment(
                phdrtab@,
                i as int,
            ),
            None => first_exec_segment(phdrtab@).is_none() && !has_exec_segment(phdrtab@),
        },
{
    let mut i: usize = 0;
    while i < phdrtab.len()
        invariant
            i <= phdrtab.len(),
            forall|j: int| 0 <= j < i ==> !exec_segment(#[trigger] phdrtab@[j]),
        decreases phdrtab.len() - i,
    {
        if is_exec_segment(&phdrtab[i]) {
            proof {
                lemma_first_exec_segment(phdrtab@, i as int);
            }
            return Some(i);
        }
        i += 1;
    }
    None
}

/// Moves a file offset up by `pagesize` if it lies at or behind `insert_off`.
pub fn update_offset(offset: u64, insert_off: u64, pagesize: u64) -> (r: u64)
    ensures
        r == shift_offset(offset, insert_off, pagesize),
{
    if offset >= insert_off {
        offset.wrapping_add(pagesize)
    } else {
        offset
    }
}

/// Tells whether a section of `size` bytes at `offset` lies wholly inside the
/// file range of `segment`.
pub fn is_section_in_segment(offset: u64, size: u64, segment: &Phdr) -> (r: bool)
    ensures
        r == section_in_segment(offset, size, *segment),
{
    segment.p_offset <= offset && offset as u128 + size as u128 <= segment.p_offset as u128
        + segment.p_filesz as u128
}

/// Rewrites the headers for a page inserted behind the executable segment,
/// which is entry `xidx` of `phdrtab`, and returns where the page goes and
/// which bytes are to be ciphered.
///
/// The entry point becomes the address at which the segment ended in memory.
/// The segment grows by `pagesize` in the file and in memory and becomes
/// writable. The two table offsets of the file header and the offset of every
/// program and section header move up by `pagesize` if they lie at or behind
/// the insertion. A section of program data that then lies wholly inside the
/// grown segment grows by `pagesize` too.
pub fn rewrite_headers(
    ehdr: &mut Ehdr,
    phdrtab: &mut Vec<Phdr>,
    shdrtab: &mut Vec<Shdr>,
    xidx: usize,
    pagesize: u64,
) -> (ins: Insertion)
    requires
        xidx < old(phdrtab).len(),
        old(phdrtab)[xidx as int].p_offset + old(phdrtab)[xidx as int].p_filesz <= u64::MAX,
    ensures
        ins == insertion_for(old(phdrtab)[xidx as int]),
        *final(ehdr) == rewritten_ehdr(*old(ehdr), old(phdrtab)[xidx as int], pagesize),
        final(phdrtab)@ == rewritten_phdrs(old(phdrtab)@, xidx as int, pagesize),
        final(shdrtab)@ == rewritten_shdrs(old(shdrtab)@, old(phdrtab)[xidx as int], pagesize),
{
    let xphdr: Phdr = phdrtab[xidx];
    let insert_off: u64 = xphdr.p_offset + xphdr.p_filesz;
    let ins = Insertion { cipher_off: xphdr.p_offset, cipher_len: xphdr.p_filesz, insert_off };

    ehdr.e_entry = xphdr.p_vaddr.wrapping_add(xphdr.p_filesz);
    ehdr.e_phoff = update_offset(ehdr.e_phoff, insert_off, pagesize);
    ehdr.e_shoff = update_offset(ehdr.e_shoff, insert_off, pagesize);

    let grown = Phdr {
        p_type: xphdr.p_type,
        p_flags: xphdr.p_flags | PF_W,
        p_offset: update_offset(xphdr.p_offset, insert_off, pagesize),
        p_vaddr: xphdr.p_vaddr,
        p_filesz: xphdr.p_filesz.wrapping_add(pagesize),
        p_memsz: xphdr.p_memsz.wrapping_add(pagesize),
    };

    let mut i: usize = 0;
    while i < phdrtab.len()
        invariant
            i <= phdrtab.len(),
            phdrtab.len() == old(phdrtab).len(),
            xidx < phdrtab.len(),
            xphdr == old(phdrtab)[xidx as int],
            insert_off == insertion_for(xphdr).insert_off,
            grown == grown_segment(xphdr, pagesize),
            forall|k: int|
                0 <= k < i ==> phdrtab@[k] == rewritten_phdrs(
                    old(phdrtab)@,
                    xidx as int,
                    pagesize,
                )[k],
            forall|k: int| i <= k < phdrtab.len() ==> phdrtab@[k] == old(phdrtab)@[k],
        decreases phdrtab.len() - i,
    {
        if i == xidx {
            phdrtab.set(i, grown);
        } else {
            let header: Phdr = phdrtab[i];
            phdrtab.set(
                i,
                Phdr {
                    p_type: header.p_type,
                    p_flags: header.p_flags,
                    p_offset: update_offset(header.p_offset, insert_off, pagesize),
                    p_vaddr: header.p_vaddr,
                    p_filesz: header.p_filesz,
                    p_memsz: header.p_memsz,
                },
            );
        }
        i += 1;
    }
    assert(phdrtab@ =~= rewritten_phdrs(old(phdrtab)@, xidx as int, pagesize));

    let mut j: usize = 0;
    while j < shdrtab.len()
        invariant
            j <= shdrtab.len(),
            shdrtab.len() == old(shdrtab).len(),
            insert_off == insertion_for(xphdr).insert_off,
            grown == grown_segment(xphdr, pagesize),
            forall|k: int|
                0 <= k < j ==> shdrtab@[k] == rewritten_shdrs(old(shdrtab)@, xphdr, pagesize)[k],
            forall|k: int| j <= k < shdrtab.len() ==> shdrtab@[k] == old(shdrtab)@[k],
        decreases shdrtab.len() - j,
    {
        let header: Shdr = shdrtab[j];
        let offset: u64 = update_offset(header.sh_offset, insert_off, pagesize);
        let size: u64 = if header.sh_type == SHT_PROGBITS && is_section_in_segment(
            offset,
            header.sh_size,
            &grown,
        ) {
            header.sh_size.wrapping_add(pagesize)
        } else {
            header.sh_size
        };
        shdrtab.set(j, Shdr { sh_type: header.sh_type, sh_offset: offset, sh_size: size });
        j += 1;
    }
    assert(shdrtab@ =~= rewritten_shdrs(old(shdrtab)@, xphdr, pagesize));
    ins
}

/// There is one first executable segment at most, and `first_exec_segment`
/// names it.
pub proof fn lemma_first_exec_segment(table: Seq<Phdr>, i: int)
    requires
        is_first_exec_segment(table, i),
    ensures
        first_exec_segment(table) == Some(i),
{
    let j = choose|j: int| is_first_exec_segment(table, j);
    assert(is_first_exec_segment(table, j));
    if j < i {
        assert(!exec_segment(table[j]));
    }
    if i < j {
        assert(!exec_segment(table[i]));
    }
}

/// Every file offset in the headers moves by the rule of the insertion: the
/// two table offsets of the file header, the offset of every program header
/// and the offset of every section header are shifted by one page if they lie
/// at or behind the insertion, and are kept if they lie before it.
pub proof fn lemma_offsets_shift(
    ehdr: Ehdr,
    phdrtab: Seq<Phdr>,
    shdrtab: Seq<Shdr>,
    x: int,
    pagesize: u64,
)
    requires
        0 <= x < phdrtab.len(),
    ensures
        ({
            let insert_off = insertion_for(phdrtab[x]).insert_off;
            let new_ehdr = rewritten_ehdr(ehdr, phdrtab[x], pagesize);
            let new_phdrs = rewritten_phdrs(phdrtab, x, pagesize);
            let new_shdrs = rewritten_shdrs(shdrtab, phdrtab[x], pagesize);
            &&& new_ehdr.e_phoff == shift_offset(ehdr.e_phoff, insert_off, pagesize)
            &&& new_ehdr.e_shoff == shift_offset(ehdr.e_shoff, insert_off, pagesize)
            &&& new_phdrs.len() == phdrtab.len()
            &&& new_shdrs.len() == shdrtab.len()
            &&& forall|i: int|
                0 <= i < phdrtab.len() ==> (#[trigger] new_phdrs[i]).p_offset == shift_offset(
                    phdrtab[i].p_offset,
                    insert_off,
                    pagesize,
                )
            &&& forall|i: int|
                0 <= i < shdrtab.len() ==> (#[trigger] new_shdrs[i]).sh_offset == shift_offset(
                    shdrtab[i].sh_offset,
                    insert_off,
                    pagesize,
                )
        }),
{
}

/// A shifted offset is the offset plus one page if it lay at or behind the
/// insertion, and the offset itself if it lay before, as long as the sum
/// fits 64 bits. Either way it moves by no more than one page, so that an
/// offset inside an image stays inside the image that is one page longer.
pub proof fn lemma_shift_offset(offset: u64, insert_off: u64, pagesize: u64)
    requires
        offset + pagesize <= u64::MAX,
    ensures
        offset >= insert_off ==> shift_offset(offset, insert_off, pagesize) == offset + pagesize,
        offset < insert_off ==> shift_offset(offset, insert_off, pagesize) == offset,
        offset <= shift_offset(offset, insert_off, pagesize) <= offset + pagesize,
{
}

/// The rewritten entry point is the first address of the inserted page: it
/// is where the segment ended in memory, and it lies inside the grown segment
/// at exactly `pagesize` bytes from its end.
pub proof fn lemma_entry_in_inserted_page(ehdr: Ehdr, xphdr: Phdr, pagesize: u64)
    requires
        pagesize > 0,
        xphdr.p_vaddr + xphdr.p_filesz + pagesize <= u64::MAX,
    ensures
        ({
            let entry = rewritten_ehdr(ehdr, xphdr, pagesize).e_entry;
            let grown = grown_segment(xphdr, pagesize);
            &&& entry == xphdr.p_vaddr + xphdr.p_filesz
            &&& grown.p_vaddr <= entry < grown.p_vaddr + grown.p_filesz
            &&& entry + pagesize == grown.p_vaddr + grown.p_filesz
        }),
{
}

/// The executable segment grows by one page in the file and in memory, keeps
/// its place in memory, and is writable afterwards.
pub proof fn lemma_segment_grows(xphdr: Phdr, pagesize: u64)
    requires
        xphdr.p_filesz + pagesize <= u64::MAX,
        xphdr.p_memsz + pagesize <= u64::MAX,
    ensures
        ({
            let grown = grown_segment(xphdr, pagesize);
            &&& grown.p_filesz == xphdr.p_filesz + pagesize
            &&& grown.p_memsz == xphdr.p_memsz + pagesize
            &&& grown.p_flags & PF_W != 0
            &&& grown.p_vaddr == xphdr.p_vaddr
            &&& grown.p_type == xphdr.p_type
            &&& exec_segment(xphdr) ==> exec_segment(grown)
        }),
{
    let flags = xphdr.p_flags;
    assert((flags | 2u32) & 2u32 != 0) by (bit_vector);
    assert(flags & 1u32 != 0 ==> (flags | 2u32) & 1u32 != 0) by (bit_vector);
}

/// A segment whose sizes agreed on file and in memory still has equal sizes
/// after the rewrite.
pub proof fn lemma_sizes_stay_equal(xphdr: Phdr, pagesize: u64)
    requires
        xphdr.p_filesz == xphdr.p_memsz,
    ensures
        grown_segment(xphdr, pagesize).p_filesz == grown_segment(xphdr, pagesize).p_memsz,
{
}

} // verus!
