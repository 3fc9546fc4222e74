//! Writing headers back into the image they were read from.
//!
//! Of each header only the fields that a rewrite may change are stored; every
//! other byte of the image is kept. What is stored is what is read again:
//! the lemmas of this module say so for one header, for a table, and for all
//! headers of an image together.
use vstd::prelude::*;
use crate::bytes::{le_bytes_u32, le_bytes_u64, le_u32, le_u64, overwrite};
use crate::bytes::{lemma_le_bytes_len, lemma_overwrite, lemma_overwrite_len};
use crate::bytes::{lemma_le_u16_kept, lemma_le_u32_kept, lemma_le_u64_kept};
use crate::bytes::{lemma_le_u32_survives, lemma_le_u64_survives, lemma_le_u64_written};
use crate::bytes::{lemma_same_outside_bytes, lemma_same_outside_chain, same_outside};
use crate::bytes::{write_u32, write_u64};
use crate::elf::{ehdr_of, phdr_at, shdr_at};
use crate::elf::{lemma_ehdr_same, lemma_phdr_same, lemma_shdr_same};
use crate::elf::{Ehdr, Phdr, Shdr, EHDR_SIZE, PHDR_SIZE, SHDR_SIZE};

verus! {

/// An image in which the file header holds the entry point and the two table
/// offsets of `ehdr`; every other byte is kept.
pub open spec fn store_ehdr(s: Seq<u8>, ehdr: Ehdr) -> Seq<u8> {
    let s1 = overwrite(s, 24, le_bytes_u64(ehdr.e_entry as int));
    let s2 = overwrite(s1, 32, le_bytes_u64(ehdr.e_phoff as int));
    overwrite(s2, 40, le_bytes_u64(ehdr.e_shoff as int))
}

/// An image in which the program header at `at` holds the flags, the offset
/// and the two sizes of `phdr`; every other byte is kept.
pub open spec fn store_phdr(s: Seq<u8>, at: int, phdr: Phdr) -> Seq<u8> {
    let s1 = overwrite(s, at + 4, le_bytes_u32(phdr.p_flags as int));
    let s2 = overwrite(s1, at + 8, le_bytes_u64(phdr.p_offset as int));
    let s3 = overwrite(s2, at + 32, le_bytes_u64(phdr.p_filesz as int));
    overwrite(s3, at + 40, le_bytes_u64(phdr.p_memsz as int))
}

/// An image in which the section header at `at` holds the offset and the size
/// of `shdr`; every other byte is kept.
pub open spec fn store_shdr(s: Seq<u8>, at: int, shdr: Shdr) -> Seq<u8> {
    let s1 = overwrite(s, at + 24, le_bytes_u64(shdr.sh_offset as int));
    overwrite(s1, at + 32, le_bytes_u64(shdr.sh_size as int))
}

/// An image in which the entries of `table` are stored back to back from
/// `off` on, first to last.
pub open spec fn store_phdr_table(s: Seq<u8>, off: int, table: Seq<Phdr>) -> Seq<u8>
    decreases table.len(),
{
    if table.len() == 0 {
        s
    } else {
        store_phdr(
            store_phdr_table(s, off, table.drop_last()),
            off + (table.len() - 1) * PHDR_SIZE as int,
            table.last(),
        )
    }
}

/// An image in which the entries of `table` are stored back to back from
/// `off` on, first to last.
pub open spec fn store_shdr_table(s: Seq<u8>, off: int, table: Seq<Shdr>) -> Seq<u8>
    decreases table.len(),
{
    if table.len() == 0 {
        s
    } else {
        store_shdr(
            store_shdr_table(s, off, table.drop_last()),
            off + (table.len() - 1) * SHDR_SIZE as int,
            table.last(),
        )
    }
}

/// An image in which the file header, then the program headers from `phoff`
/// on, then the section headers from `shoff` on are stored.
pub open spec fn store_all(
    s: Seq<u8>,
    phoff: int,
    shoff: int,
    ehdr: Ehdr,
    phdrtab: Seq<Phdr>,
    shdrtab: Seq<Shdr>,
) -> Seq<u8> {
    store_shdr_table(store_phdr_table(store_ehdr(s, ehdr), phoff, phdrtab), shoff, shdrtab)
}

/// Storing a header changes no length.
pub proof fn lemma_store_ehdr_len(s: Seq<u8>, ehdr: Ehdr)
    ensures
        store_ehdr(s, ehdr).len() == s.len(),
{
    reveal(overwrite);
}

/// Storing a header changes no length.
pub proof fn lemma_store_phdr_len(s: Seq<u8>, at: int, phdr: Phdr)
    ensures
        store_phdr(s, at, phdr).len() == s.len(),
{
    reveal(overwrite);
}

/// Storing a header changes no length.
pub proof fn lemma_store_shdr_len(s: Seq<u8>, at: int, shdr: Shdr)
    ensures
        store_shdr(s, at, shdr).len() == s.len(),
{
    reveal(overwrite);
}

/// Storing headers changes no length.
pub proof fn lemma_store_phdr_table_len(s: Seq<u8>, off: int, table: Seq<Phdr>)
    ensures
        store_phdr_table(s, off, table).len() == s.len(),
    decreases table.len(),
{
    if table.len() > 0 {
        lemma_store_phdr_table_len(s, off, table.drop_last());
        lemma_store_phdr_len(
            store_phdr_table(s, off, table.drop_last()),
            off + (table.len() - 1) * PHDR_SIZE as int,
            table.last(),
        );
    }
}

/// Storing headers changes no length.
pub proof fn lemma_store_shdr_table_len(s: Seq<u8>, off: int, table: Seq<Shdr>)
    ensures
        store_shdr_table(s, off, table).len() == s.len(),
    decreases table.len(),
{
    if table.len() > 0 {
        lemma_store_shdr_table_len(s, off, table.drop_last());
        lemma_store_shdr_len(
            store_shdr_table(s, off, table.drop_last()),
            off + (table.len() - 1) * SHDR_SIZE as int,
            table.last(),
        );
    }
}

/// Storing headers changes no length.
pub proof fn lemma_store_all_len(
    s: Seq<u8>,
    phoff: int,
    shoff: int,
    ehdr: Ehdr,
    phdrtab: Seq<Phdr>,
    shdrtab: Seq<Shdr>,
)
    ensures
        store_all(s, phoff, shoff, ehdr, phdrtab, shdrtab).len() == s.len(),
{
    lemma_store_ehdr_len(s, ehdr);
    lemma_store_phdr_table_len(store_ehdr(s, ehdr), phoff, phdrtab);
    lemma_store_shdr_table_len(
        store_phdr_table(store_ehdr(s, ehdr), phoff, phdrtab),
        shoff,
        shdrtab,
    );
}

/// Writes the entry point and the two table offsets of `ehdr` into the file
/// header of `elf`.
pub fn write_ehdr(elf: &mut Vec<u8>, ehdr: &Ehdr)
    requires
        old(elf).len() >= EHDR_SIZE,
    ensures
        final(elf)@ == store_ehdr(old(elf)@, *ehdr),
        final(elf).len() == old(elf).len(),
{
    write_u64(elf, 24, ehdr.e_entry);
    write_u64(elf, 32, ehdr.e_phoff);
    write_u64(elf, 40, ehdr.e_shoff);
}

/// Writes the flags, the offset and the two sizes of `phdr` into the program
/// header that starts at `at`.
pub fn write_phdr(elf: &mut Vec<u8>, at: usize, phdr: &Phdr)
    requires
        at + PHDR_SIZE <= old(elf).len(),
    ensures
        final(elf)@ == store_phdr(old(elf)@, at as int, *phdr),
        final(elf).len() == old(elf).len(),
{
    write_u32(elf, at + 4, phdr.p_flags);
    write_u64(elf, at + 8, phdr.p_offset);
    write_u64(elf, at + 32, phdr.p_filesz);
    write_u64(elf, at + 40, phdr.p_memsz);
}

/// Writes the offset and the size of `shdr` into the section header that
/// starts at `at`.
pub fn write_shdr(elf: &mut Vec<u8>, at: usize, shdr: &Shdr)
    requires
        at + SHDR_SIZE <= old(elf).len(),
    ensures
        final(elf)@ == store_shdr(old(elf)@, at as int, *shdr),
        final(elf).len() == old(elf).len(),
{
    write_u64(elf, at + 24, shdr.sh_offset);
    write_u64(elf, at + 32, shdr.sh_size);
}

/// Writes headers back into the image that they were read from: the file
/// header at the start, the program headers from `phoff` on and the section
/// headers from `shoff` on. Of each header only the fields that a rewrite may
/// change are written; every other byte of the image is kept.
pub fn store_headers(
    elf: &mut Vec<u8>,
    phoff: usize,
    shoff: usize,
    ehdr: &Ehdr,
    phdrtab: &Vec<Phdr>,
    shdrtab: &Vec<Shdr>,
)
    requires
        old(elf).len() >= EHDR_SIZE,
        phoff + PHDR_SIZE * phdrtab.len() <= old(elf).len(),
        shoff + SHDR_SIZE * shdrtab.len() <= old(elf).len(),
    ensures
        final(elf)@ == store_all(
            old(elf)@,
            phoff as int,
            shoff as int,
            *ehdr,
            phdrtab@,
            shdrtab@,
        ),
        final(elf).len() == old(elf).len(),
{
    write_ehdr(elf, ehdr);
    let ghost with_ehdr = elf@;
    let mut i: usize = 0;
    while i < phdrtab.len()
        invariant
            i <= phdrtab.len(),
            elf.len() == old(elf).len(),
            phoff + PHDR_SIZE * phdrtab.len() <= elf.len(),
            elf@ == store_phdr_table(with_ehdr, phoff as int, phdrtab@.take(i as int)),
        decreases phdrtab.len() - i,
    {
        write_phdr(elf, phoff + i * PHDR_SIZE, &phdrtab[i]);
        proof {
            let next = phdrtab@.take(i + 1);
            assert(next.drop_last() =~= phdrtab@.take(i as int));
            assert(next.last() == phdrtab@[i as int]);
        }
        i += 1;
    }
    assert(phdrtab@.take(phdrtab.len() as int) =~= phdrtab@);
    let ghost with_phdrs = elf@;
    let mut j: usize = 0;
    while j < shdrtab.len()
        invariant
            j <= shdrtab.len(),
            elf.len() == old(elf).len(),
            shoff + SHDR_SIZE * shdrtab.len() <= elf.len(),
            elf@ == store_shdr_table(with_phdrs, shoff as int, shdrtab@.take(j as int)),
        decreases shdrtab.len() - j,
    {
        write_shdr(elf, shoff + j * SHDR_SIZE, &shdrtab[j]);
        proof {
            let next = shdrtab@.take(j + 1);
            assert(next.drop_last() =~= shdrtab@.take(j as int));
            assert(next.last() == shdrtab@[j as int]);
        }
        j += 1;
    }
    assert(shdrtab@.take(shdrtab.len() as int) =~= shdrtab@);
}

/// A stored file header is read back as it was stored, with the fields that
/// are not stored as the image had them; the bytes behind the file header
/// are kept.
pub proof fn lemma_ehdr_stored(s: Seq<u8>, ehdr: Ehdr)
    requires
        EHDR_SIZE <= s.len(),
    ensures
        ehdr_of(store_ehdr(s, ehdr)) == (Ehdr {
            e_entry: ehdr.e_entry,
            e_phoff: ehdr.e_phoff,
            e_shoff: ehdr.e_shoff,
            ..ehdr_of(s)
        }),
        same_outside(store_ehdr(s, ehdr), s, 24, 24),
{
    reveal(ehdr_of);
    let b1 = le_bytes_u64(ehdr.e_entry as int);
    let b2 = le_bytes_u64(ehdr.e_phoff as int);
    let b3 = le_bytes_u64(ehdr.e_shoff as int);
    let s1 = overwrite(s, 24, b1);
    let s2 = overwrite(s1, 32, b2);
    let s3 = overwrite(s2, 40, b3);
    assert(s3 == store_ehdr(s, ehdr));
    lemma_le_bytes_len(ehdr.e_entry as int);
    lemma_le_bytes_len(ehdr.e_phoff as int);
    lemma_le_bytes_len(ehdr.e_shoff as int);
    lemma_overwrite(s, 24, b1);
    lemma_overwrite(s1, 32, b2);
    lemma_overwrite(s2, 40, b3);
    lemma_same_outside_chain(s3, s2, s1, 40, 8, 32, 8, 32, 16);
    lemma_same_outside_chain(s3, s1, s, 32, 16, 24, 8, 24, 24);

    lemma_le_u64_survives(s, 24, ehdr.e_entry, s3, 32, 16);
    lemma_le_u64_survives(s1, 32, ehdr.e_phoff, s3, 40, 8);
    lemma_le_u64_written(s2, 40, ehdr.e_shoff);

    assert(s3[4] == s[4]);
    assert(s3[5] == s[5]);
    lemma_le_u32_kept(s3, s, 0, 24, 24);
    lemma_le_u16_kept(s3, s, 16, 24, 24);
    lemma_le_u16_kept(s3, s, 18, 24, 24);
    lemma_le_u16_kept(s3, s, 54, 24, 24);
    lemma_le_u16_kept(s3, s, 56, 24, 24);
    lemma_le_u16_kept(s3, s, 58, 24, 24);
    lemma_le_u16_kept(s3, s, 60, 24, 24);
}

/// The flags and the offset of a stored program header are read back as
/// they were stored.
proof fn lemma_phdr_stored_low(s: Seq<u8>, at: int, phdr: Phdr)
    requires
        0 <= at,
        at + PHDR_SIZE <= s.len(),
    ensures
        le_u32(store_phdr(s, at, phdr), at + 4) == phdr.p_flags,
        le_u64(store_phdr(s, at, phdr), at + 8) == phdr.p_offset,
{
    let b1 = le_bytes_u32(phdr.p_flags as int);
    let b2 = le_bytes_u64(phdr.p_offset as int);
    let b3 = le_bytes_u64(phdr.p_filesz as int);
    let b4 = le_bytes_u64(phdr.p_memsz as int);
    let s1 = overwrite(s, at + 4, b1);
    let s2 = overwrite(s1, at + 8, b2);
    let s3 = overwrite(s2, at + 32, b3);
    let s4 = overwrite(s3, at + 40, b4);
    lemma_le_bytes_len(phdr.p_flags as int);
    lemma_le_bytes_len(phdr.p_offset as int);
    lemma_le_bytes_len(phdr.p_filesz as int);
    lemma_le_bytes_len(phdr.p_memsz as int);
    lemma_overwrite(s, at + 4, b1);
    lemma_overwrite(s1, at + 8, b2);
    lemma_overwrite(s2, at + 32, b3);
    lemma_overwrite(s3, at + 40, b4);
    lemma_same_outside_chain(s4, s3, s2, at + 40, 8, at + 32, 8, at + 32, 16);
    lemma_same_outside_chain(s4, s2, s1, at + 32, 16, at + 8, 8, at + 8, 40);
    lemma_le_u32_survives(s, at + 4, phdr.p_flags, s4, at + 8, 40);
    lemma_le_u64_survives(s1, at + 8, phdr.p_offset, s4, at + 32, 16);
}

/// The two sizes of a stored program header are read back as they were
/// stored.
proof fn lemma_phdr_stored_high(s: Seq<u8>, at: int, phdr: Phdr)
    requires
        0 <= at,
        at + PHDR_SIZE <= s.len(),
    ensures
        le_u64(store_phdr(s, at, phdr), at + 32) == phdr.p_filesz,
        le_u64(store_phdr(s, at, phdr), at + 40) == phdr.p_memsz,
{
    let b1 = le_bytes_u32(phdr.p_flags as int);
    let b2 = le_bytes_u64(phdr.p_offset as int);
    let b3 = le_bytes_u64(phdr.p_filesz as int);
    let b4 = le_bytes_u64(phdr.p_memsz as int);
    let s1 = overwrite(s, at + 4, b1);
    let s2 = overwrite(s1, at + 8, b2);
    let s3 = overwrite(s2, at + 32, b3);
    let s4 = overwrite(s3, at + 40, b4);
    lemma_le_bytes_len(phdr.p_filesz as int);
    lemma_le_bytes_len(phdr.p_memsz as int);
    lemma_overwrite_len(s, at + 4, b1);
    lemma_overwrite_len(s1, at + 8, b2);
    lemma_overwrite_len(s2, at + 32, b3);
    lemma_overwrite(s3, at + 40, b4);
    lemma_le_u64_survives(s2, at + 32, phdr.p_filesz, s4, at + 40, 8);
    lemma_le_u64_written(s3, at + 40, phdr.p_memsz);
}

/// Storing a program header keeps its type and its address, and every byte
/// around the header.
proof fn lemma_phdr_stored_kept(s: Seq<u8>, at: int, phdr: Phdr)
    requires
        0 <= at,
        at + PHDR_SIZE <= s.len(),
    ensures
        le_u32(store_phdr(s, at, phdr), at) == le_u32(s, at),
        le_u64(store_phdr(s, at, phdr), at + 16) == le_u64(s, at + 16),
        same_outside(store_phdr(s, at, phdr), s, at, PHDR_SIZE as int),
{
    let b1 = le_bytes_u32(phdr.p_flags as int);
    let b2 = le_bytes_u64(phdr.p_offset as int);
    let b3 = le_bytes_u64(phdr.p_filesz as int);
    let b4 = le_bytes_u64(phdr.p_memsz as int);
    let s1 = overwrite(s, at + 4, b1);
    let s2 = overwrite(s1, at + 8, b2);
    let s3 = overwrite(s2, at + 32, b3);
    let s4 = overwrite(s3, at + 40, b4);
    lemma_le_bytes_len(phdr.p_flags as int);
    lemma_le_bytes_len(phdr.p_offset as int);
    lemma_le_bytes_len(phdr.p_filesz as int);
    lemma_le_bytes_len(phdr.p_memsz as int);
    lemma_overwrite(s, at + 4, b1);
    lemma_overwrite(s1, at + 8, b2);
    lemma_overwrite(s2, at + 32, b3);
    lemma_overwrite(s3, at + 40, b4);
    // the low pair of writes and the high pair, each as one range
    lemma_same_outside_chain(s2, s1, s, at + 8, 8, at + 4, 4, at + 4, 12);
    lemma_same_outside_chain(s4, s3, s2, at + 40, 8, at + 32, 8, at + 32, 16);
    lemma_le_u32_kept(s2, s, at, at + 4, 12);
    lemma_le_u32_kept(s4, s2, at, at + 32, 16);
    lemma_le_u64_kept(s2, s, at + 16, at + 4, 12);
    lemma_le_u64_kept(s4, s2, at + 16, at + 32, 16);
    lemma_same_outside_chain(
        s4,
        s2,
        s,
        at + 32,
        16,
        at + 4,
        12,
        at,
        PHDR_SIZE as int,
    );
}

/// A stored program header is read back as it was stored, with the fields
/// that are not stored as the image had them; the bytes around it are kept.
pub proof fn lemma_phdr_stored(s: Seq<u8>, at: int, phdr: Phdr)
    requires
        0 <= at,
        at + PHDR_SIZE <= s.len(),
    ensures
        phdr_at(store_phdr(s, at, phdr), at) == (Phdr {
            p_type: phdr_at(s, at).p_type,
            p_vaddr: phdr_at(s, at).p_vaddr,
            ..phdr
        }),
        same_outside(store_phdr(s, at, phdr), s, at, PHDR_SIZE as int),
{
    reveal(phdr_at);
    lemma_phdr_stored_low(s, at, phdr);
    lemma_phdr_stored_high(s, at, phdr);
    lemma_phdr_stored_kept(s, at, phdr);
}

/// A stored section header is read back as it was stored, with the type as
/// the image had it; the bytes around it are kept.
pub proof fn lemma_shdr_stored(s: Seq<u8>, at: int, shdr: Shdr)
    requires
        0 <= at,
        at + SHDR_SIZE <= s.len(),
    ensures
        shdr_at(store_shdr(s, at, shdr), at) == (Shdr {
            sh_type: shdr_at(s, at).sh_type,
            ..shdr
        }),
        same_outside(store_shdr(s, at, shdr), s, at + 24, 16),
{
    reveal(shdr_at);
    let b1 = le_bytes_u64(shdr.sh_offset as int);
    let b2 = le_bytes_u64(shdr.sh_size as int);
    let s1 = overwrite(s, at + 24, b1);
    let s2 = overwrite(s1, at + 32, b2);
    assert(s2 == store_shdr(s, at, shdr));
    lemma_le_bytes_len(shdr.sh_offset as int);
    lemma_le_bytes_len(shdr.sh_size as int);
    lemma_overwrite(s, at + 24, b1);
    lemma_overwrite(s1, at + 32, b2);
    lemma_same_outside_chain(s2, s1, s, at + 32, 8, at + 24, 8, at + 24, 16);

    lemma_le_u64_survives(s, at + 24, shdr.sh_offset, s2, at + 32, 8);
    lemma_le_u64_written(s1, at + 32, shdr.sh_size);
    lemma_le_u32_kept(s2, s, at + 4, at + 24, 16);
}

/// A program header as it is read after `stored` was stored over `read`:
/// type and address are kept, everything else is as stored.
pub open spec fn stored_phdr(read: Phdr, stored: Phdr) -> Phdr {
    Phdr { p_type: read.p_type, p_vaddr: read.p_vaddr, ..stored }
}

/// A section header as it is read after `stored` was stored over `read`:
/// the type is kept, everything else is as stored.
pub open spec fn stored_shdr(read: Shdr, stored: Shdr) -> Shdr {
    Shdr { sh_type: read.sh_type, ..stored }
}

/// Every entry of a stored program header table is read back as it was
/// stored, and the bytes around the table are kept.
pub proof fn lemma_phdr_table_stored(s: Seq<u8>, off: int, table: Seq<Phdr>)
    requires
        0 <= off,
        off + PHDR_SIZE * table.len() <= s.len(),
    ensures
        same_outside(store_phdr_table(s, off, table), s, off, PHDR_SIZE * table.len()),
        forall|i: int|
            0 <= i < table.len() ==> phdr_at(
                store_phdr_table(s, off, table),
                off + i * PHDR_SIZE,
            ) == stored_phdr(phdr_at(s, off + i * PHDR_SIZE), #[trigger] table[i]),
    decreases table.len(),
{
    if table.len() > 0 {
        let head = table.drop_last();
        let last = table.len() - 1;
        let at = off + PHDR_SIZE * last;
        let before = store_phdr_table(s, off, head);
        let after = store_phdr_table(s, off, table);
        lemma_phdr_table_stored(s, off, head);
        lemma_phdr_stored(before, at, table.last());
        assert(after == store_phdr(before, at, table.last()));
        lemma_same_outside_chain(
            after,
            before,
            s,
            at,
            PHDR_SIZE as int,
            off,
            PHDR_SIZE * last,
            off,
            PHDR_SIZE * table.len(),
        );
        assert forall|i: int| 0 <= i < table.len() implies phdr_at(after, off + i * PHDR_SIZE)
            == stored_phdr(phdr_at(s, off + i * PHDR_SIZE), #[trigger] table[i]) by {
            if i == last {
                lemma_same_outside_bytes(
                    before,
                    s,
                    off,
                    PHDR_SIZE * last,
                    at,
                    PHDR_SIZE as int,
                );
                lemma_phdr_same(before, at, s, at);
            } else {
                assert(head[i] == table[i]);
                lemma_same_outside_bytes(
                    after,
                    before,
                    at,
                    PHDR_SIZE as int,
                    off + i * PHDR_SIZE,
                    PHDR_SIZE as int,
                );
                lemma_phdr_same(after, off + i * PHDR_SIZE, before, off + i * PHDR_SIZE);
            }
        }
    }
}

/// Every entry of a stored section header table is read back as it was
/// stored, and the bytes around the table are kept.
pub proof fn lemma_shdr_table_stored(s: Seq<u8>, off: int, table: Seq<Shdr>)
    requires
        0 <= off,
        off + SHDR_SIZE * table.len() <= s.len(),
    ensures
        same_outside(store_shdr_table(s, off, table), s, off, SHDR_SIZE * table.len()),
        forall|i: int|
            0 <= i < table.len() ==> shdr_at(
                store_shdr_table(s, off, table),
                off + i * SHDR_SIZE,
            ) == stored_shdr(shdr_at(s, off + i * SHDR_SIZE), #[trigger] table[i]),
    decreases table.len(),
{
    if table.len() > 0 {
        let head = table.drop_last();
        let last = table.len() - 1;
        let at = off + SHDR_SIZE * last;
        let before = store_shdr_table(s, off, head);
        let after = store_shdr_table(s, off, table);
        lemma_shdr_table_stored(s, off, head);
        lemma_shdr_stored(before, at, table.last());
        assert(after == store_shdr(before, at, table.last()));
        lemma_same_outside_chain(
            after,
            before,
            s,
            at + 24,
            16,
            off,
            SHDR_SIZE * last,
            off,
            SHDR_SIZE * table.len(),
        );
        assert forall|i: int| 0 <= i < table.len() implies shdr_at(after, off + i * SHDR_SIZE)
            == stored_shdr(shdr_at(s, off + i * SHDR_SIZE), #[trigger] table[i]) by {
            if i == last {
                lemma_same_outside_bytes(
                    before,
                    s,
                    off,
                    SHDR_SIZE * last,
                    at,
                    SHDR_SIZE as int,
                );
                lemma_shdr_same(before, at, s, at);
            } else {
                assert(head[i] == table[i]);
                lemma_same_outside_bytes(
                    after,
                    before,
                    at + 24,
                    16,
                    off + i * SHDR_SIZE,
                    SHDR_SIZE as int,
                );
                lemma_shdr_same(after, off + i * SHDR_SIZE, before, off + i * SHDR_SIZE);
            }
        }
    }
}

/// Headers that are stored into an image clear of each other are all read
/// back as they were stored: the file header, every program header and every
/// section header, each with the fields that are not stored as the image had
/// them.
pub proof fn lemma_store_all_read(
    s: Seq<u8>,
    phoff: int,
    shoff: int,
    ehdr: Ehdr,
    phdrtab: Seq<Phdr>,
    shdrtab: Seq<Shdr>,
)
    requires
        EHDR_SIZE <= s.len(),
        EHDR_SIZE <= phoff,
        phoff + PHDR_SIZE * phdrtab.len() <= s.len(),
        0 <= shoff,
        shoff + SHDR_SIZE * shdrtab.len() <= s.len(),
        shdrtab.len() > 0 ==> EHDR_SIZE <= shoff,
        shdrtab.len() > 0 ==> (phoff + PHDR_SIZE * phdrtab.len() <= shoff || shoff + SHDR_SIZE
            * shdrtab.len() <= phoff),
    ensures
        ({
            let stored = store_all(s, phoff, shoff, ehdr, phdrtab, shdrtab);
            &&& stored.len() == s.len()
            &&& ehdr_of(stored) == (Ehdr {
                e_entry: ehdr.e_entry,
                e_phoff: ehdr.e_phoff,
                e_shoff: ehdr.e_shoff,
                ..ehdr_of(s)
            })
            &&& forall|i: int|
                0 <= i < phdrtab.len() ==> phdr_at(stored, phoff + i * PHDR_SIZE) == stored_phdr(
                    phdr_at(s, phoff + i * PHDR_SIZE),
                    #[trigger] phdrtab[i],
                )
            &&& forall|i: int|
                0 <= i < shdrtab.len() ==> shdr_at(stored, shoff + i * SHDR_SIZE) == stored_shdr(
                    shdr_at(s, shoff + i * SHDR_SIZE),
                    #[trigger] shdrtab[i],
                )
        }),
{
    let a = store_ehdr(s, ehdr);
    let b = store_phdr_table(a, phoff, phdrtab);
    let c = store_shdr_table(b, shoff, shdrtab);
    let ph_len = PHDR_SIZE * phdrtab.len();
    let sh_len = SHDR_SIZE * shdrtab.len();
    assert(c == store_all(s, phoff, shoff, ehdr, phdrtab, shdrtab));
    lemma_ehdr_stored(s, ehdr);
    lemma_phdr_table_stored(a, phoff, phdrtab);
    lemma_shdr_table_stored(b, shoff, shdrtab);

    assert(ehdr_of(c) == ehdr_of(a)) by {
        lemma_same_outside_bytes(b, a, phoff, ph_len, 0, EHDR_SIZE as int);
        lemma_same_outside_bytes(c, b, shoff, sh_len, 0, EHDR_SIZE as int);
        lemma_ehdr_same(b, a);
        lemma_ehdr_same(c, b);
    }
    assert forall|i: int| 0 <= i < phdrtab.len() implies phdr_at(c, phoff + i * PHDR_SIZE)
        == stored_phdr(phdr_at(s, phoff + i * PHDR_SIZE), #[trigger] phdrtab[i]) by {
        let at = phoff + i * PHDR_SIZE;
        lemma_same_outside_bytes(c, b, shoff, sh_len, at, PHDR_SIZE as int);
        lemma_phdr_same(c, at, b, at);
        lemma_same_outside_bytes(a, s, 24, 24, at, PHDR_SIZE as int);
        lemma_phdr_same(a, at, s, at);
    }
    assert forall|i: int| 0 <= i < shdrtab.len() implies shdr_at(c, shoff + i * SHDR_SIZE)
        == stored_shdr(shdr_at(s, shoff + i * SHDR_SIZE), #[trigger] shdrtab[i]) by {
        let at = shoff + i * SHDR_SIZE;
        lemma_same_outside_bytes(b, a, phoff, ph_len, at, SHDR_SIZE as int);
        lemma_shdr_same(b, at, a, at);
        lemma_same_outside_bytes(a, s, 24, 24, at, SHDR_SIZE as int);
        lemma_shdr_same(a, at, s, at);
    }
}

/// Whether byte `k` of an image lies in a header: in the file header, or in
/// one of the `phnum` program headers from `phoff` on, or in one of the
/// `shnum` section headers from `shoff` on.
pub open spec fn in_headers(k: int, phoff: int, phnum: int, shoff: int, shnum: int) -> bool {
    ||| 0 <= k < EHDR_SIZE
    ||| phoff <= k < phoff + PHDR_SIZE * phnum
    ||| shoff <= k < shoff + SHDR_SIZE * shnum
}

/// Storing headers keeps every byte that lies in no header.
pub proof fn lemma_store_all_keeps(
    s: Seq<u8>,
    phoff: int,
    shoff: int,
    ehdr: Ehdr,
    phdrtab: Seq<Phdr>,
    shdrtab: Seq<Shdr>,
    k: int,
)
    requires
        EHDR_SIZE <= s.len(),
        0 <= phoff,
        phoff + PHDR_SIZE * phdrtab.len() <= s.len(),
        0 <= shoff,
        shoff + SHDR_SIZE * shdrtab.len() <= s.len(),
        0 <= k < s.len(),
        !in_headers(k, phoff, phdrtab.len() as int, shoff, shdrtab.len() as int),
    ensures
        store_all(s, phoff, shoff, ehdr, phdrtab, shdrtab)[k] == s[k],
{
    let a = store_ehdr(s, ehdr);
    let b = store_phdr_table(a, phoff, phdrtab);
    let c = store_shdr_table(b, shoff, shdrtab);
    lemma_ehdr_stored(s, ehdr);
    lemma_phdr_table_stored(a, phoff, phdrtab);
    lemma_shdr_table_stored(b, shoff, shdrtab);
    assert(c[k] == b[k]);
    assert(b[k] == a[k]);
    assert(a[k] == s[k]);
}

} // verus!
