//! What a loader reads from a packed file.
//!
//! The packer rewrites headers as values and stores them into the image at
//! the places they were read from; the page is spliced in afterwards. This
//! module shows that the two fit together: in an image whose headers lie
//! clear of the ciphered segment and of each other, the headers read from the
//! packed file are the rewritten ones.
use vstd::prelude::*;
use crate::bytes::{le_i32, le_u64, lemma_le_u32_same, lemma_le_u64_same};
use crate::bytes::{lemma_same_bytes_part, same_bytes};
use crate::cipher::{cipher_byte, cipher_range};
use crate::elf::{ehdr_of, phdr_at, shdr_at};
use crate::elf::{header_verdict, parse_headers, table_end, table_overrun};
use crate::elf::{lemma_ehdr_same, lemma_phdr_same, lemma_shdr_same};
use crate::elf::{exec_segment, phdr_table, shdr_table, tables_inside, Error};
use crate::elf::{Ehdr, Phdr, Shdr, EHDR_SIZE, ET_EXEC, PF_W, PHDR_SIZE, SHDR_SIZE};
use crate::pack::{lemma_jump_closes_loop, lemma_packed_layout};
use crate::pack::{packed, packed_layout, packed_source, packed_with, zeros};
use crate::packer::{lemma_jump_reaches_entry, lemma_no_pie_addresses};
use crate::packer::{lemma_packer_len, lemma_pie_addresses};
use crate::packer::{packer_bytes, packer_len, BANNER, MAX_PACKER_LEN};
use crate::rewrite::{first_exec_segment, insertion_for, is_first_exec_segment};
use crate::rewrite::{grown_segment, lemma_first_exec_segment, lemma_offsets_shift};
use crate::rewrite::{rewritten_ehdr, rewritten_phdrs, rewritten_shdrs, shift_offset, Insertion};
use crate::store::{in_headers, lemma_store_all_keeps};
use crate::store::{lemma_store_all_len, lemma_store_all_read};
use crate::store::{store_all, stored_phdr, stored_shdr};

verus! {

/// Whether the `len` bytes from `start` lie clear of an insertion: wholly
/// before the ciphered bytes, or wholly behind the place of the new page.
pub open spec fn clear_of(start: int, len: int, ins: Insertion) -> bool {
    start + len <= ins.cipher_off || ins.insert_off <= start
}

/// Whether the headers of an image lie clear of an insertion and of each
/// other: the file header before the ciphered bytes, each table behind the
/// file header and on one side of the insertion, and neither table inside
/// the other.
pub open spec fn headers_clear(ehdr: Ehdr, phnum: int, shnum: int, ins: Insertion) -> bool {
    let ph_len = PHDR_SIZE * phnum;
    let sh_len = SHDR_SIZE * shnum;
    &&& EHDR_SIZE <= ins.cipher_off
    &&& EHDR_SIZE <= ehdr.e_phoff
    &&& clear_of(ehdr.e_phoff as int, ph_len, ins)
    &&& shnum > 0 ==> {
        &&& EHDR_SIZE <= ehdr.e_shoff
        &&& clear_of(ehdr.e_shoff as int, sh_len, ins)
        &&& ehdr.e_phoff + ph_len <= ehdr.e_shoff || ehdr.e_shoff + sh_len <= ehdr.e_phoff
    }
}

/// Where a byte of the image lies in the packed file: one page further on if
/// it lay at or behind the insertion, and in its old place otherwise.
pub open spec fn moved(at: int, ins: Insertion, pagesize: int) -> int {
    if at >= ins.insert_off {
        at + pagesize
    } else {
        at
    }
}

/// Bytes that lie clear of the insertion are found unchanged in the packed
/// file, at the place that the insertion moved them to.
pub proof fn lemma_clear_bytes_moved(
    stored: Seq<u8>,
    ins: Insertion,
    packer: Seq<u8>,
    pagesize: int,
    at: int,
    len: int,
)
    requires
        ins.cipher_off + ins.cipher_len == ins.insert_off,
        ins.insert_off <= stored.len(),
        packer.len() <= pagesize,
        0 <= at,
        at + len <= stored.len(),
        clear_of(at, len, ins),
    ensures
        same_bytes(
            packed_layout(
                cipher_range(stored, ins.cipher_off as int, ins.cipher_len as int),
                ins.insert_off as int,
                packer,
                pagesize,
            ),
            moved(at, ins, pagesize),
            stored,
            at,
            len,
        ),
{
    let ciphered = cipher_range(stored, ins.cipher_off as int, ins.cipher_len as int);
    let out = packed_layout(ciphered, ins.insert_off as int, packer, pagesize);
    let to = moved(at, ins, pagesize);
    assert forall|k: int| to <= k < to + len implies #[trigger] out[k] == stored[k - to + at] by {
        if at >= ins.insert_off {
            assert(out[k] == ciphered[k - pagesize]);
        } else {
            assert(out[k] == ciphered[k]);
        }
    }
}

/// The packed file of an image with headers `ehdr`, `phdrtab` and `shdrtab`
/// whose executable segment is entry `x`.
pub open spec fn packed_image(
    elf: Seq<u8>,
    ehdr: Ehdr,
    phdrtab: Seq<Phdr>,
    shdrtab: Seq<Shdr>,
    x: int,
    pagesize: u64,
) -> Seq<u8> {
    packed_layout(
        packed_source(elf, ehdr, phdrtab, shdrtab, x, pagesize),
        phdrtab[x].p_offset + phdrtab[x].p_filesz,
        packer_bytes(ehdr, phdrtab[x], BANNER@),
        pagesize as int,
    )
}

/// Whether `ehdr`, `phdrtab` and `shdrtab` are the headers that `elf` holds,
/// entry `x` is a segment that ends inside the image, and the headers lie
/// clear of the insertion behind that segment and of each other.
pub open spec fn laid_out(
    elf: Seq<u8>,
    ehdr: Ehdr,
    phdrtab: Seq<Phdr>,
    shdrtab: Seq<Shdr>,
    x: int,
) -> bool {
    &&& tables_inside(ehdr, phdrtab.len(), shdrtab.len(), elf.len())
    &&& ehdr == ehdr_of(elf)
    &&& phdrtab == phdr_table(elf, ehdr.e_phoff as int, phdrtab.len() as int)
    &&& shdrtab == shdr_table(elf, ehdr.e_shoff as int, shdrtab.len() as int)
    &&& 0 <= x < phdrtab.len()
    &&& phdrtab[x].p_offset + phdrtab[x].p_filesz <= elf.len()
    &&& headers_clear(
        ehdr,
        phdrtab.len() as int,
        shdrtab.len() as int,
        insertion_for(phdrtab[x]),
    )
}

/// The image with the rewritten headers stored holds exactly these headers.
proof fn lemma_stored_headers(
    elf: Seq<u8>,
    ehdr: Ehdr,
    phdrtab: Seq<Phdr>,
    shdrtab: Seq<Shdr>,
    x: int,
    pagesize: u64,
)
    requires
        laid_out(elf, ehdr, phdrtab, shdrtab, x),
    ensures
        ({
            let new_ehdr = rewritten_ehdr(ehdr, phdrtab[x], pagesize);
            let new_phdrs = rewritten_phdrs(phdrtab, x, pagesize);
            let new_shdrs = rewritten_shdrs(shdrtab, phdrtab[x], pagesize);
            let stored = store_all(
                elf,
                ehdr.e_phoff as int,
                ehdr.e_shoff as int,
                new_ehdr,
                new_phdrs,
                new_shdrs,
            );
            &&& stored.len() == elf.len()
            &&& ehdr_of(stored) == new_ehdr
            &&& phdr_table(stored, ehdr.e_phoff as int, phdrtab.len() as int) == new_phdrs
            &&& shdr_table(stored, ehdr.e_shoff as int, shdrtab.len() as int) == new_shdrs
        }),
{
    let new_ehdr = rewritten_ehdr(ehdr, phdrtab[x], pagesize);
    let new_phdrs = rewritten_phdrs(phdrtab, x, pagesize);
    let new_shdrs = rewritten_shdrs(shdrtab, phdrtab[x], pagesize);
    let phoff = ehdr.e_phoff as int;
    let shoff = ehdr.e_shoff as int;
    let stored = store_all(elf, phoff, shoff, new_ehdr, new_phdrs, new_shdrs);
    lemma_store_all_read(elf, phoff, shoff, new_ehdr, new_phdrs, new_shdrs);
    assert forall|i: int| 0 <= i < phdrtab.len() implies #[trigger] phdr_table(
        stored,
        phoff,
        phdrtab.len() as int,
    )[i] == new_phdrs[i] by {
        assert(phdrtab[i] == phdr_at(elf, phoff + i * PHDR_SIZE as int));
        assert(phdr_at(stored, phoff + i * PHDR_SIZE) == stored_phdr(
            phdr_at(elf, phoff + i * PHDR_SIZE),
            new_phdrs[i],
        ));
    }
    assert(phdr_table(stored, phoff, phdrtab.len() as int) =~= new_phdrs);
    assert forall|i: int| 0 <= i < shdrtab.len() implies #[trigger] shdr_table(
        stored,
        shoff,
        shdrtab.len() as int,
    )[i] == new_shdrs[i] by {
        assert(shdrtab[i] == shdr_at(elf, shoff + i * SHDR_SIZE as int));
        assert(shdr_at(stored, shoff + i * SHDR_SIZE) == stored_shdr(
            shdr_at(elf, shoff + i * SHDR_SIZE),
            new_shdrs[i],
        ));
    }
    assert(shdr_table(stored, shoff, shdrtab.len() as int) =~= new_shdrs);
}

/// A file header that lies before the ciphered bytes is read from the packed
/// file as it is read from the image.
pub proof fn lemma_ehdr_moved(stored: Seq<u8>, ins: Insertion, packer: Seq<u8>, pagesize: int)
    requires
        ins.cipher_off + ins.cipher_len == ins.insert_off,
        ins.insert_off <= stored.len(),
        packer.len() <= pagesize,
        EHDR_SIZE <= ins.cipher_off,
    ensures
        ehdr_of(
            packed_layout(
                cipher_range(stored, ins.cipher_off as int, ins.cipher_len as int),
                ins.insert_off as int,
                packer,
                pagesize,
            ),
        ) == ehdr_of(stored),
{
    let out = packed_layout(
        cipher_range(stored, ins.cipher_off as int, ins.cipher_len as int),
        ins.insert_off as int,
        packer,
        pagesize,
    );
    lemma_clear_bytes_moved(stored, ins, packer, pagesize, 0, EHDR_SIZE as int);
    lemma_ehdr_same(out, stored);
}

/// A program header table that lies clear of the insertion is read from the
/// packed file, at the place that the insertion moved it to, as it is read
/// from the image.
pub proof fn lemma_phdr_table_moved(
    stored: Seq<u8>,
    ins: Insertion,
    packer: Seq<u8>,
    pagesize: int,
    off: int,
    count: int,
)
    requires
        ins.cipher_off + ins.cipher_len == ins.insert_off,
        ins.insert_off <= stored.len(),
        packer.len() <= pagesize,
        0 <= off,
        0 <= count,
        off + PHDR_SIZE * count <= stored.len(),
        clear_of(off, PHDR_SIZE * count, ins),
    ensures
        phdr_table(
            packed_layout(
                cipher_range(stored, ins.cipher_off as int, ins.cipher_len as int),
                ins.insert_off as int,
                packer,
                pagesize,
            ),
            moved(off, ins, pagesize),
            count,
        ) == phdr_table(stored, off, count),
{
    let out = packed_layout(
        cipher_range(stored, ins.cipher_off as int, ins.cipher_len as int),
        ins.insert_off as int,
        packer,
        pagesize,
    );
    let to = moved(off, ins, pagesize);
    lemma_clear_bytes_moved(stored, ins, packer, pagesize, off, PHDR_SIZE * count);
    assert forall|i: int| 0 <= i < count implies #[trigger] phdr_table(out, to, count)[i]
        == phdr_table(stored, off, count)[i] by {
        lemma_same_bytes_part(
            out,
            to,
            stored,
            off,
            PHDR_SIZE * count,
            i * PHDR_SIZE,
            PHDR_SIZE as int,
        );
        lemma_phdr_same(out, to + i * PHDR_SIZE, stored, off + i * PHDR_SIZE);
    }
    assert(phdr_table(out, to, count) =~= phdr_table(stored, off, count));
}

/// A section header table that lies clear of the insertion is read from the
/// packed file, at the place that the insertion moved it to, as it is read
/// from the image.
pub proof fn lemma_shdr_table_moved(
    stored: Seq<u8>,
    ins: Insertion,
    packer: Seq<u8>,
    pagesize: int,
    off: int,
    count: int,
)
    requires
        ins.cipher_off + ins.cipher_len == ins.insert_off,
        ins.insert_off <= stored.len(),
        packer.len() <= pagesize,
        0 <= off,
        0 <= count,
        off + SHDR_SIZE * count <= stored.len(),
        clear_of(off, SHDR_SIZE * count, ins),
    ensures
        shdr_table(
            packed_layout(
                cipher_range(stored, ins.cipher_off as int, ins.cipher_len as int),
                ins.insert_off as int,
                packer,
                pagesize,
            ),
            moved(off, ins, pagesize),
            count,
        ) == shdr_table(stored, off, count),
{
    let out = packed_layout(
        cipher_range(stored, ins.cipher_off as int, ins.cipher_len as int),
        ins.insert_off as int,
        packer,
        pagesize,
    );
    let to = moved(off, ins, pagesize);
    lemma_clear_bytes_moved(stored, ins, packer, pagesize, off, SHDR_SIZE * count);
    assert forall|i: int| 0 <= i < count implies #[trigger] shdr_table(out, to, count)[i]
        == shdr_table(stored, off, count)[i] by {
        lemma_same_bytes_part(
            out,
            to,
            stored,
            off,
            SHDR_SIZE * count,
            i * SHDR_SIZE,
            SHDR_SIZE as int,
        );
        lemma_shdr_same(out, to + i * SHDR_SIZE, stored, off + i * SHDR_SIZE);
    }
    assert(shdr_table(out, to, count) =~= shdr_table(stored, off, count));
}

/// The insertion behind a segment that ends inside the image: the ciphered
/// bytes end where the page goes, and a table offset that is rewritten is the
/// place that the insertion moved the table to.
proof fn lemma_offsets_moved(
    elf: Seq<u8>,
    ehdr: Ehdr,
    phdrtab: Seq<Phdr>,
    shdrtab: Seq<Shdr>,
    x: int,
    pagesize: u64,
)
    requires
        laid_out(elf, ehdr, phdrtab, shdrtab, x),
        elf.len() + pagesize <= u64::MAX,
    ensures
        ({
            let ins = insertion_for(phdrtab[x]);
            let new_ehdr = rewritten_ehdr(ehdr, phdrtab[x], pagesize);
            &&& ins.cipher_off + ins.cipher_len == ins.insert_off
            &&& ins.insert_off == phdrtab[x].p_offset + phdrtab[x].p_filesz
            &&& ins.insert_off <= elf.len()
            &&& new_ehdr.e_phoff == moved(ehdr.e_phoff as int, ins, pagesize as int)
            &&& new_ehdr.e_shoff == moved(ehdr.e_shoff as int, ins, pagesize as int)
        }),
{
}

/// The packed file of an image that is laid out well starts with the
/// rewritten file header.
proof fn lemma_packed_image_ehdr(
    elf: Seq<u8>,
    ehdr: Ehdr,
    phdrtab: Seq<Phdr>,
    shdrtab: Seq<Shdr>,
    x: int,
    pagesize: u64,
)
    requires
        laid_out(elf, ehdr, phdrtab, shdrtab, x),
        packer_bytes(ehdr, phdrtab[x], BANNER@).len() <= pagesize,
        elf.len() + pagesize <= u64::MAX,
    ensures
        packed_image(elf, ehdr, phdrtab, shdrtab, x, pagesize).len() == elf.len() + pagesize,
        ehdr_of(packed_image(elf, ehdr, phdrtab, shdrtab, x, pagesize)) == rewritten_ehdr(
            ehdr,
            phdrtab[x],
            pagesize,
        ),
{
    let ins = insertion_for(phdrtab[x]);
    let stub = packer_bytes(ehdr, phdrtab[x], BANNER@);
    let stored = store_all(
        elf,
        ehdr.e_phoff as int,
        ehdr.e_shoff as int,
        rewritten_ehdr(ehdr, phdrtab[x], pagesize),
        rewritten_phdrs(phdrtab, x, pagesize),
        rewritten_shdrs(shdrtab, phdrtab[x], pagesize),
    );
    lemma_offsets_moved(elf, ehdr, phdrtab, shdrtab, x, pagesize);
    lemma_stored_headers(elf, ehdr, phdrtab, shdrtab, x, pagesize);
    lemma_ehdr_moved(stored, ins, stub, pagesize as int);
}

/// The packed file of an image that is laid out well holds the rewritten
/// program headers at the offset that the rewritten file header gives.
proof fn lemma_packed_image_phdrs(
    elf: Seq<u8>,
    ehdr: Ehdr,
    phdrtab: Seq<Phdr>,
    shdrtab: Seq<Shdr>,
    x: int,
    pagesize: u64,
)
    requires
        laid_out(elf, ehdr, phdrtab, shdrtab, x),
        packer_bytes(ehdr, phdrtab[x], BANNER@).len() <= pagesize,
        elf.len() + pagesize <= u64::MAX,
    ensures
        phdr_table(
            packed_image(elf, ehdr, phdrtab, shdrtab, x, pagesize),
            rewritten_ehdr(ehdr, phdrtab[x], pagesize).e_phoff as int,
            phdrtab.len() as int,
        ) == rewritten_phdrs(phdrtab, x, pagesize),
        rewritten_ehdr(ehdr, phdrtab[x], pagesize).e_phoff + PHDR_SIZE * phdrtab.len()
            <= elf.len() + pagesize,
{
    let ins = insertion_for(phdrtab[x]);
    let stub = packer_bytes(ehdr, phdrtab[x], BANNER@);
    let phoff = ehdr.e_phoff as int;
    let phnum = phdrtab.len() as int;
    let stored = store_all(
        elf,
        phoff,
        ehdr.e_shoff as int,
        rewritten_ehdr(ehdr, phdrtab[x], pagesize),
        rewritten_phdrs(phdrtab, x, pagesize),
        rewritten_shdrs(shdrtab, phdrtab[x], pagesize),
    );
    lemma_offsets_moved(elf, ehdr, phdrtab, shdrtab, x, pagesize);
    lemma_stored_headers(elf, ehdr, phdrtab, shdrtab, x, pagesize);
    lemma_phdr_table_moved(stored, ins, stub, pagesize as int, phoff, phnum);
}

/// The packed file of an image that is laid out well holds the rewritten
/// section headers at the offset that the rewritten file header gives.
proof fn lemma_packed_image_shdrs(
    elf: Seq<u8>,
    ehdr: Ehdr,
    phdrtab: Seq<Phdr>,
    shdrtab: Seq<Shdr>,
    x: int,
    pagesize: u64,
)
    requires
        laid_out(elf, ehdr, phdrtab, shdrtab, x),
        packer_bytes(ehdr, phdrtab[x], BANNER@).len() <= pagesize,
        elf.len() + pagesize <= u64::MAX,
    ensures
        shdr_table(
            packed_image(elf, ehdr, phdrtab, shdrtab, x, pagesize),
            rewritten_ehdr(ehdr, phdrtab[x], pagesize).e_shoff as int,
            shdrtab.len() as int,
        ) == rewritten_shdrs(shdrtab, phdrtab[x], pagesize),
        rewritten_ehdr(ehdr, phdrtab[x], pagesize).e_shoff + SHDR_SIZE * shdrtab.len()
            <= elf.len() + pagesize,
{
    let ins = insertion_for(phdrtab[x]);
    let stub = packer_bytes(ehdr, phdrtab[x], BANNER@);
    let shoff = ehdr.e_shoff as int;
    let shnum = shdrtab.len() as int;
    let new_shdrs = rewritten_shdrs(shdrtab, phdrtab[x], pagesize);
    let stored = store_all(
        elf,
        ehdr.e_phoff as int,
        shoff,
        rewritten_ehdr(ehdr, phdrtab[x], pagesize),
        rewritten_phdrs(phdrtab, x, pagesize),
        new_shdrs,
    );
    lemma_offsets_moved(elf, ehdr, phdrtab, shdrtab, x, pagesize);
    if shnum > 0 {
        lemma_stored_headers(elf, ehdr, phdrtab, shdrtab, x, pagesize);
        lemma_shdr_table_moved(stored, ins, stub, pagesize as int, shoff, shnum);
    } else {
        assert(shdr_table(
            packed_image(elf, ehdr, phdrtab, shdrtab, x, pagesize),
            rewritten_ehdr(ehdr, phdrtab[x], pagesize).e_shoff as int,
            shnum,
        ) =~= new_shdrs);
    }
}

/// The packed file of an image that is laid out well holds the rewritten
/// headers: the file header at its start, and each table, entry by entry,
/// at the offset that the rewritten file header gives.
pub proof fn lemma_packed_image_headers(
    elf: Seq<u8>,
    ehdr: Ehdr,
    phdrtab: Seq<Phdr>,
    shdrtab: Seq<Shdr>,
    x: int,
    pagesize: u64,
)
    requires
        laid_out(elf, ehdr, phdrtab, shdrtab, x),
        packer_bytes(ehdr, phdrtab[x], BANNER@).len() <= pagesize,
        elf.len() + pagesize <= u64::MAX,
    ensures
        ({
            let new_ehdr = rewritten_ehdr(ehdr, phdrtab[x], pagesize);
            let new_phdrs = rewritten_phdrs(phdrtab, x, pagesize);
            let new_shdrs = rewritten_shdrs(shdrtab, phdrtab[x], pagesize);
            let out = packed_image(elf, ehdr, phdrtab, shdrtab, x, pagesize);
            &&& out.len() == elf.len() + pagesize
            &&& ehdr_of(out) == new_ehdr
            &&& new_ehdr.e_phoff + PHDR_SIZE * phdrtab.len() <= out.len()
            &&& new_ehdr.e_shoff + SHDR_SIZE * shdrtab.len() <= out.len()
            &&& phdr_table(out, new_ehdr.e_phoff as int, phdrtab.len() as int) == new_phdrs
            &&& shdr_table(out, new_ehdr.e_shoff as int, shdrtab.len() as int) == new_shdrs
        }),
{
    lemma_packed_image_ehdr(elf, ehdr, phdrtab, shdrtab, x, pagesize);
    lemma_packed_image_phdrs(elf, ehdr, phdrtab, shdrtab, x, pagesize);
    lemma_packed_image_shdrs(elf, ehdr, phdrtab, shdrtab, x, pagesize);
}

/// Whether an image can be packed and read again: its headers are accepted,
/// it has an executable segment and is packed without an error, its headers
/// lie clear of the insertion and of each other, and the entry point that the
/// rewrite gives it is not zero.
pub open spec fn packs_cleanly(elf: Seq<u8>, pagesize: u64) -> bool {
    &&& packed(elf, pagesize) is Ok
    &&& parse_headers(elf) matches Ok((ehdr, phdrtab, shdrtab))
    &&& first_exec_segment(phdrtab) matches Some(x)
    &&& headers_clear(
        ehdr,
        phdrtab.len() as int,
        shdrtab.len() as int,
        insertion_for(phdrtab[x]),
    )
    &&& rewritten_ehdr(ehdr, phdrtab[x], pagesize).e_entry != 0
}

/// The headers of an image after the rewrite for a page behind its first
/// executable segment.
pub open spec fn rewritten_headers(elf: Seq<u8>, pagesize: u64) -> (Ehdr, Seq<Phdr>, Seq<Shdr>) {
    let (ehdr, phdrtab, shdrtab) = parse_headers(elf)->Ok_0;
    let x = first_exec_segment(phdrtab)->Some_0;
    (
        rewritten_ehdr(ehdr, phdrtab[x], pagesize),
        rewritten_phdrs(phdrtab, x, pagesize),
        rewritten_shdrs(shdrtab, phdrtab[x], pagesize),
    )
}

/// An image that packs cleanly is laid out well around its first executable
/// segment, and its packed form is the packed file of its headers.
proof fn lemma_packs_cleanly(elf: Seq<u8>, pagesize: u64)
    requires
        packs_cleanly(elf, pagesize),
    ensures
        ({
            let (ehdr, phdrtab, shdrtab) = parse_headers(elf)->Ok_0;
            let x = first_exec_segment(phdrtab)->Some_0;
            &&& laid_out(elf, ehdr, phdrtab, shdrtab, x)
            &&& packed(elf, pagesize)->Ok_0 == packed_image(
                elf,
                ehdr,
                phdrtab,
                shdrtab,
                x,
                pagesize,
            )
            &&& header_verdict(ehdr) is Ok
            &&& phdrtab.len() == ehdr.e_phnum
            &&& shdrtab.len() == ehdr.e_shnum
            &&& table_end(ehdr.e_phoff, ehdr.e_phentsize as int, ehdr.e_phnum) <= elf.len()
            &&& table_end(ehdr.e_shoff, ehdr.e_shentsize as int, ehdr.e_shnum) <= elf.len()
        }),
{
    let (ehdr, phdrtab, shdrtab) = parse_headers(elf)->Ok_0;
    let x = first_exec_segment(phdrtab)->Some_0;
    assert(is_first_exec_segment(phdrtab, x));
    assert(packed(elf, pagesize) == packed_with(elf, ehdr, phdrtab, shdrtab, pagesize));
}

/// What a loader reads from a packed file: the headers of a packed image are
/// the rewritten headers of the image. This holds of every image that packs
/// cleanly; the packed file is then accepted as the image was, and holds the
/// rewritten file header and, at the offsets that this header gives, the
/// rewritten program headers and the rewritten section headers.
pub proof fn lemma_packed_headers(elf: Seq<u8>, pagesize: u64)
    requires
        pagesize >= MAX_PACKER_LEN,
        elf.len() + pagesize <= u64::MAX,
        packs_cleanly(elf, pagesize),
    ensures
        parse_headers(packed(elf, pagesize)->Ok_0) == Ok::<(Ehdr, Seq<Phdr>, Seq<Shdr>), Error>(
            rewritten_headers(elf, pagesize),
        ),
{
    let (ehdr, phdrtab, shdrtab) = parse_headers(elf)->Ok_0;
    let x = first_exec_segment(phdrtab)->Some_0;
    let out = packed(elf, pagesize)->Ok_0;
    let new_ehdr = rewritten_ehdr(ehdr, phdrtab[x], pagesize);
    lemma_packs_cleanly(elf, pagesize);
    lemma_packer_len(ehdr, phdrtab[x], BANNER@);
    lemma_packed_image_headers(elf, ehdr, phdrtab, shdrtab, x, pagesize);
    assert(header_verdict(new_ehdr) is Ok);
    assert(new_ehdr.e_phoff <= ehdr.e_phoff + pagesize);
    assert(new_ehdr.e_shoff <= ehdr.e_shoff + pagesize);
    assert(table_overrun(
        new_ehdr.e_phoff,
        new_ehdr.e_phentsize,
        new_ehdr.e_phnum,
        PHDR_SIZE as int,
        out.len() as int,
    ) is None);
    assert(table_overrun(
        new_ehdr.e_shoff,
        new_ehdr.e_shentsize,
        new_ehdr.e_shnum,
        SHDR_SIZE as int,
        out.len() as int,
    ) is None);
}

/// Every file offset that a loader reads from the packed file has moved by
/// the rule of the insertion: the two table offsets of the file header, the
/// offset of every program header and the offset of every section header lie
/// one page further on if they lay at or behind the insertion, and where
/// they were if they lay before it.
pub proof fn lemma_packed_offsets(elf: Seq<u8>, pagesize: u64)
    requires
        pagesize >= MAX_PACKER_LEN,
        elf.len() + pagesize <= u64::MAX,
        packs_cleanly(elf, pagesize),
    ensures
        ({
            let (ehdr, phdrtab, shdrtab) = parse_headers(elf)->Ok_0;
            let x = first_exec_segment(phdrtab)->Some_0;
            let insert_off = insertion_for(phdrtab[x]).insert_off;
            let (new_ehdr, new_phdrs, new_shdrs) = parse_headers(
                packed(elf, pagesize)->Ok_0,
            )->Ok_0;
            &&& new_ehdr.e_phoff == if ehdr.e_phoff >= insert_off {
                ehdr.e_phoff + pagesize
            } else {
                ehdr.e_phoff as int
            }
            &&& new_ehdr.e_shoff == if ehdr.e_shoff >= insert_off {
                ehdr.e_shoff + pagesize
            } else {
                ehdr.e_shoff as int
            }
            &&& new_phdrs.len() == phdrtab.len()
            &&& new_shdrs.len() == shdrtab.len()
            &&& forall|i: int|
                0 <= i < phdrtab.len() ==> (#[trigger] new_phdrs[i]).p_offset == shift_offset(
                    phdrtab[i].p_offset,
                    insert_off,
                    pagesize,
                )
            &&& forall|i: int|
                0 <= i < shdrtab.len() ==> (#[trigger] new_shdrs[i]).sh_offset == shift_offset(
                    shdrtab[i].sh_offset,
                    insert_off,
                    pagesize,
                )
        }),
{
    let (ehdr, phdrtab, shdrtab) = parse_headers(elf)->Ok_0;
    let x = first_exec_segment(phdrtab)->Some_0;
    lemma_packed_headers(elf, pagesize);
    lemma_packs_cleanly(elf, pagesize);
    lemma_offsets_shift(ehdr, phdrtab, shdrtab, x, pagesize);
    assert(ehdr.e_phentsize * ehdr.e_phnum >= 0 && ehdr.e_shentsize * ehdr.e_shnum >= 0)
        by (nonlinear_arith);
}

/// The executable segment that a loader reads from the packed file is the
/// grown one: as long in the file as it is in memory if it was so before,
/// writable, and where it was in memory.
pub proof fn lemma_packed_segment(elf: Seq<u8>, pagesize: u64)
    requires
        pagesize >= MAX_PACKER_LEN,
        elf.len() + pagesize <= u64::MAX,
        packs_cleanly(elf, pagesize),
    ensures
        ({
            let (ehdr, phdrtab, shdrtab) = parse_headers(elf)->Ok_0;
            let x = first_exec_segment(phdrtab)->Some_0;
            let (new_ehdr, new_phdrs, new_shdrs) = parse_headers(
                packed(elf, pagesize)->Ok_0,
            )->Ok_0;
            &&& first_exec_segment(new_phdrs) == Some(x)
            &&& new_phdrs[x] == grown_segment(phdrtab[x], pagesize)
            &&& new_phdrs[x].p_filesz == phdrtab[x].p_filesz + pagesize
            &&& phdrtab[x].p_memsz + pagesize <= u64::MAX ==> new_phdrs[x].p_memsz
                == phdrtab[x].p_memsz + pagesize
            &&& new_phdrs[x].p_flags & PF_W != 0
            &&& new_phdrs[x].p_vaddr == phdrtab[x].p_vaddr
        }),
{
    let (ehdr, phdrtab, shdrtab) = parse_headers(elf)->Ok_0;
    let x = first_exec_segment(phdrtab)->Some_0;
    let new_phdrs = rewritten_phdrs(phdrtab, x, pagesize);
    lemma_packed_headers(elf, pagesize);
    lemma_packs_cleanly(elf, pagesize);
    let flags = phdrtab[x].p_flags;
    assert((flags | 2u32) & 2u32 != 0) by (bit_vector);
    assert(flags & 1u32 != 0 ==> (flags | 2u32) & 1u32 != 0) by (bit_vector);
    assert(is_first_exec_segment(new_phdrs, x)) by {
        assert(exec_segment(new_phdrs[x]));
        assert forall|j: int| 0 <= j < x implies !exec_segment(#[trigger] new_phdrs[j]) by {
            assert(!exec_segment(phdrtab[j]));
        }
    }
    lemma_first_exec_segment(new_phdrs, x);
}

/// The entry point that a loader reads from the packed file is the first
/// byte of the stub: its address is where the segment ended in memory, the
/// grown segment maps it from the place of the insertion in the file, and
/// there the packed file holds the stub.
pub proof fn lemma_packed_entry(elf: Seq<u8>, pagesize: u64)
    requires
        pagesize >= MAX_PACKER_LEN,
        elf.len() + pagesize <= u64::MAX,
        packs_cleanly(elf, pagesize),
        ({
            let (ehdr, phdrtab, shdrtab) = parse_headers(elf)->Ok_0;
            let x = first_exec_segment(phdrtab)->Some_0;
            &&& phdrtab[x].p_filesz > 0
            &&& phdrtab[x].p_vaddr + phdrtab[x].p_filesz <= u64::MAX
        }),
    ensures
        ({
            let (ehdr, phdrtab, shdrtab) = parse_headers(elf)->Ok_0;
            let x = first_exec_segment(phdrtab)->Some_0;
            let insert_off = phdrtab[x].p_offset + phdrtab[x].p_filesz;
            let stub = packer_bytes(ehdr, phdrtab[x], BANNER@);
            let out = packed(elf, pagesize)->Ok_0;
            let (new_ehdr, new_phdrs, new_shdrs) = parse_headers(out)->Ok_0;
            &&& new_ehdr.e_entry == phdrtab[x].p_vaddr + phdrtab[x].p_filesz
            &&& new_phdrs[x].p_vaddr <= new_ehdr.e_entry < new_phdrs[x].p_vaddr
                + new_phdrs[x].p_filesz
            &&& new_phdrs[x].p_offset + (new_ehdr.e_entry - new_phdrs[x].p_vaddr) == insert_off
            &&& out.subrange(insert_off, insert_off + stub.len()) == stub
        }),
{
    let (ehdr, phdrtab, shdrtab) = parse_headers(elf)->Ok_0;
    let x = first_exec_segment(phdrtab)->Some_0;
    let insert_off = phdrtab[x].p_offset + phdrtab[x].p_filesz;
    lemma_packed_headers(elf, pagesize);
    lemma_packs_cleanly(elf, pagesize);
    lemma_packer_len(ehdr, phdrtab[x], BANNER@);
    lemma_store_all_len(
        elf,
        ehdr.e_phoff as int,
        ehdr.e_shoff as int,
        rewritten_ehdr(ehdr, phdrtab[x], pagesize),
        rewritten_phdrs(phdrtab, x, pagesize),
        rewritten_shdrs(shdrtab, phdrtab[x], pagesize),
    );
    lemma_packed_layout(
        packed_source(elf, ehdr, phdrtab, shdrtab, x, pagesize),
        insert_off,
        packer_bytes(ehdr, phdrtab[x], BANNER@),
        pagesize as int,
    );
}

/// The closing jump of the stub in the packed file leads back to the entry
/// point of the image: for a segment that is as long in memory as in the
/// file, the displacement in the last four bytes of the stub, added to the
/// address behind the stub as the packed file maps it, gives the entry point
/// that the image had.
pub proof fn lemma_packed_jump(elf: Seq<u8>, pagesize: u64)
    requires
        pagesize >= MAX_PACKER_LEN,
        elf.len() + pagesize <= u64::MAX,
        packs_cleanly(elf, pagesize),
        ({
            let (ehdr, phdrtab, shdrtab) = parse_headers(elf)->Ok_0;
            let x = first_exec_segment(phdrtab)->Some_0;
            &&& phdrtab[x].p_filesz == phdrtab[x].p_memsz
            &&& phdrtab[x].p_vaddr + phdrtab[x].p_filesz <= u64::MAX
        }),
    ensures
        ({
            let (ehdr, phdrtab, shdrtab) = parse_headers(elf)->Ok_0;
            let x = first_exec_segment(phdrtab)->Some_0;
            let insert_off = phdrtab[x].p_offset + phdrtab[x].p_filesz;
            let len = packer_len(ehdr.e_type, BANNER@.len() as int);
            let out = packed(elf, pagesize)->Ok_0;
            let new_ehdr = parse_headers(out)->Ok_0.0;
            &&& out[insert_off + len - 5] == 0xe9
            &&& new_ehdr.e_entry + len + le_i32(out, insert_off + len - 4) == ehdr.e_entry
        }),
{
    let (ehdr, phdrtab, shdrtab) = parse_headers(elf)->Ok_0;
    let x = first_exec_segment(phdrtab)->Some_0;
    let insert_off = phdrtab[x].p_offset + phdrtab[x].p_filesz;
    let stub = packer_bytes(ehdr, phdrtab[x], BANNER@);
    let len = packer_len(ehdr.e_type, BANNER@.len() as int);
    let out = packed(elf, pagesize)->Ok_0;
    lemma_packed_headers(elf, pagesize);
    lemma_packs_cleanly(elf, pagesize);
    lemma_packer_len(ehdr, phdrtab[x], BANNER@);
    lemma_store_all_len(
        elf,
        ehdr.e_phoff as int,
        ehdr.e_shoff as int,
        rewritten_ehdr(ehdr, phdrtab[x], pagesize),
        rewritten_phdrs(phdrtab, x, pagesize),
        rewritten_shdrs(shdrtab, phdrtab[x], pagesize),
    );
    lemma_packed_layout(
        packed_source(elf, ehdr, phdrtab, shdrtab, x, pagesize),
        insert_off,
        stub,
        pagesize as int,
    );
    lemma_jump_closes_loop(ehdr, phdrtab[x], pagesize);
    let part = out.subrange(insert_off, insert_off + len);
    assert(part == stub);
    assert(out[insert_off + len - 5] == part[len - 5]);
    assert(same_bytes(out, insert_off + len - 4, stub, len - 4, 4)) by {
        assert forall|k: int| insert_off + len - 4 <= k < insert_off + len implies #[trigger] out[k]
            == stub[k - (insert_off + len - 4) + (len - 4)] by {
            assert(out[k] == part[k - insert_off]);
        }
    }
    lemma_le_u32_same(out, insert_off + len - 4, stub, len - 4);
    lemma_jump_reaches_entry(ehdr, phdrtab[x], BANNER@);
}

/// A byte of an image is found in the packed file at the place that the
/// insertion moved it to: ciphered if it lies among the ciphered bytes, and
/// unchanged otherwise.
pub proof fn lemma_byte_moved(
    stored: Seq<u8>,
    ins: Insertion,
    packer: Seq<u8>,
    pagesize: int,
    k: int,
)
    requires
        ins.cipher_off + ins.cipher_len == ins.insert_off,
        ins.insert_off <= stored.len(),
        packer.len() <= pagesize,
        0 <= k < stored.len(),
    ensures
        packed_layout(
            cipher_range(stored, ins.cipher_off as int, ins.cipher_len as int),
            ins.insert_off as int,
            packer,
            pagesize,
        )[moved(k, ins, pagesize)] == if ins.cipher_off <= k < ins.insert_off {
            cipher_byte(stored[k])
        } else {
            stored[k]
        },
{
    let ciphered = cipher_range(stored, ins.cipher_off as int, ins.cipher_len as int);
    let out = packed_layout(ciphered, ins.insert_off as int, packer, pagesize);
    if k >= ins.insert_off {
        assert(out[k + pagesize] == ciphered[k]);
    } else {
        assert(out[k] == ciphered[k]);
    }
}

/// Every byte of an image that lies in no header is found in its packed
/// file at the place that the insertion moved it to: ciphered if it lay in
/// the executable segment, and unchanged otherwise.
proof fn lemma_packed_image_bytes(
    elf: Seq<u8>,
    ehdr: Ehdr,
    phdrtab: Seq<Phdr>,
    shdrtab: Seq<Shdr>,
    x: int,
    pagesize: u64,
    k: int,
)
    requires
        tables_inside(ehdr, phdrtab.len(), shdrtab.len(), elf.len()),
        0 <= x < phdrtab.len(),
        phdrtab[x].p_offset + phdrtab[x].p_filesz <= elf.len(),
        packer_bytes(ehdr, phdrtab[x], BANNER@).len() <= pagesize,
        elf.len() <= u64::MAX,
        0 <= k < elf.len(),
        !in_headers(
            k,
            ehdr.e_phoff as int,
            phdrtab.len() as int,
            ehdr.e_shoff as int,
            shdrtab.len() as int,
        ),
    ensures
        ({
            let ins = insertion_for(phdrtab[x]);
            let out = packed_image(elf, ehdr, phdrtab, shdrtab, x, pagesize);
            out[moved(k, ins, pagesize as int)] == if ins.cipher_off <= k < ins.insert_off {
                cipher_byte(elf[k])
            } else {
                elf[k]
            }
        }),
{
    let ins = insertion_for(phdrtab[x]);
    let new_ehdr = rewritten_ehdr(ehdr, phdrtab[x], pagesize);
    let new_phdrs = rewritten_phdrs(phdrtab, x, pagesize);
    let new_shdrs = rewritten_shdrs(shdrtab, phdrtab[x], pagesize);
    let phoff = ehdr.e_phoff as int;
    let shoff = ehdr.e_shoff as int;
    let stored = store_all(elf, phoff, shoff, new_ehdr, new_phdrs, new_shdrs);
    assert(stored.len() == elf.len() && stored[k] == elf[k]) by {
        lemma_store_all_len(elf, phoff, shoff, new_ehdr, new_phdrs, new_shdrs);
        lemma_store_all_keeps(elf, phoff, shoff, new_ehdr, new_phdrs, new_shdrs, k);
    }
    lemma_byte_moved(stored, ins, packer_bytes(ehdr, phdrtab[x], BANNER@), pagesize as int, k);
}

/// Every byte of the image that lies in no header is found in the packed
/// file at the place that the insertion moved it to: ciphered if it lay in
/// the executable segment, and unchanged otherwise.
pub proof fn lemma_packed_bytes(elf: Seq<u8>, pagesize: u64, k: int)
    requires
        pagesize >= MAX_PACKER_LEN,
        elf.len() + pagesize <= u64::MAX,
        packs_cleanly(elf, pagesize),
        0 <= k < elf.len(),
        ({
            let (ehdr, phdrtab, shdrtab) = parse_headers(elf)->Ok_0;
            !in_headers(
                k,
                ehdr.e_phoff as int,
                phdrtab.len() as int,
                ehdr.e_shoff as int,
                shdrtab.len() as int,
            )
        }),
    ensures
        ({
            let (ehdr, phdrtab, shdrtab) = parse_headers(elf)->Ok_0;
            let x = first_exec_segment(phdrtab)->Some_0;
            let ins = insertion_for(phdrtab[x]);
            let out = packed(elf, pagesize)->Ok_0;
            out[moved(k, ins, pagesize as int)] == if ins.cipher_off <= k < ins.insert_off {
                cipher_byte(elf[k])
            } else {
                elf[k]
            }
        }),
{
    let (ehdr, phdrtab, shdrtab) = parse_headers(elf)->Ok_0;
    let x = first_exec_segment(phdrtab)->Some_0;
    lemma_packs_cleanly(elf, pagesize);
    lemma_packer_len(ehdr, phdrtab[x], BANNER@);
    lemma_packed_image_bytes(elf, ehdr, phdrtab, shdrtab, x, pagesize, k);
}

/// The page that is spliced into the packed file holds the stub and, behind
/// it, zeros up to its end.
pub proof fn lemma_packed_page(elf: Seq<u8>, pagesize: u64)
    requires
        pagesize >= MAX_PACKER_LEN,
        packed(elf, pagesize) is Ok,
    ensures
        ({
            let (ehdr, phdrtab, shdrtab) = parse_headers(elf)->Ok_0;
            let x = first_exec_segment(phdrtab)->Some_0;
            let insert_off = phdrtab[x].p_offset + phdrtab[x].p_filesz;
            let stub = packer_bytes(ehdr, phdrtab[x], BANNER@);
            let out = packed(elf, pagesize)->Ok_0;
            &&& insert_off + pagesize <= out.len()
            &&& out.subrange(insert_off, insert_off + stub.len()) == stub
            &&& out.subrange(insert_off + stub.len(), insert_off + pagesize) == zeros(
                pagesize - stub.len(),
            )
        }),
{
    let (ehdr, phdrtab, shdrtab) = parse_headers(elf)->Ok_0;
    let x = first_exec_segment(phdrtab)->Some_0;
    let insert_off = phdrtab[x].p_offset + phdrtab[x].p_filesz;
    lemma_packer_len(ehdr, phdrtab[x], BANNER@);
    lemma_store_all_len(
        elf,
        ehdr.e_phoff as int,
        ehdr.e_shoff as int,
        rewritten_ehdr(ehdr, phdrtab[x], pagesize),
        rewritten_phdrs(phdrtab, x, pagesize),
        rewritten_shdrs(shdrtab, phdrtab[x], pagesize),
    );
    lemma_packed_layout(
        packed_source(elf, ehdr, phdrtab, shdrtab, x, pagesize),
        insert_off,
        packer_bytes(ehdr, phdrtab[x], BANNER@),
        pagesize as int,
    );
}

/// The stub in the packed file addresses the segment that it deciphers: for
/// a segment that is as long in memory as in the file, the stub is loaded at
/// the rewritten entry point, and there, in an executable linked at a fixed
/// address, it loads the address at which the segment starts and the address
/// at which it ends, and in a position-independent one it reaches both by
/// displacements from `rip`.
pub proof fn lemma_packed_stub_addresses(elf: Seq<u8>, pagesize: u64)
    requires
        pagesize >= MAX_PACKER_LEN,
        elf.len() + pagesize <= u64::MAX,
        packs_cleanly(elf, pagesize),
        ({
            let (ehdr, phdrtab, shdrtab) = parse_headers(elf)->Ok_0;
            let x = first_exec_segment(phdrtab)->Some_0;
            &&& phdrtab[x].p_filesz == phdrtab[x].p_memsz
            &&& phdrtab[x].p_vaddr + phdrtab[x].p_filesz <= u64::MAX
        }),
    ensures
        ({
            let (ehdr, phdrtab, shdrtab) = parse_headers(elf)->Ok_0;
            let x = first_exec_segment(phdrtab)->Some_0;
            let start = phdrtab[x].p_vaddr as int;
            let end = phdrtab[x].p_vaddr + phdrtab[x].p_memsz;
            let at = phdrtab[x].p_offset + phdrtab[x].p_filesz;
            let out = packed(elf, pagesize)->Ok_0;
            let stub_addr = parse_headers(out)->Ok_0.0.e_entry;
            &&& stub_addr == end
            &&& ehdr.e_type == ET_EXEC ==> {
                &&& le_u64(out, at + 2) == start
                &&& le_u64(out, at + 12) == end
            }
            &&& ehdr.e_type != ET_EXEC ==> {
                &&& stub_addr + 7 + le_i32(out, at + 3) == start
                &&& stub_addr + 14 + le_i32(out, at + 10) == end
            }
        }),
{
    let (ehdr, phdrtab, shdrtab) = parse_headers(elf)->Ok_0;
    let x = first_exec_segment(phdrtab)->Some_0;
    let at = phdrtab[x].p_offset + phdrtab[x].p_filesz;
    let stub = packer_bytes(ehdr, phdrtab[x], BANNER@);
    let out = packed(elf, pagesize)->Ok_0;
    lemma_packed_headers(elf, pagesize);
    lemma_packs_cleanly(elf, pagesize);
    lemma_packer_len(ehdr, phdrtab[x], BANNER@);
    lemma_packed_page(elf, pagesize);
    let part = out.subrange(at, at + stub.len());
    assert(same_bytes(out, at, stub, 0, stub.len() as int)) by {
        assert forall|k: int| at <= k < at + stub.len() implies #[trigger] out[k] == stub[k - at
            + 0] by {
            assert(out[k] == part[k - at]);
        }
    }
    if ehdr.e_type == ET_EXEC {
        lemma_no_pie_addresses(ehdr, phdrtab[x], BANNER@);
        lemma_same_bytes_part(out, at, stub, 0, stub.len() as int, 2, 8);
        lemma_le_u64_same(out, at + 2, stub, 2);
        lemma_same_bytes_part(out, at, stub, 0, stub.len() as int, 12, 8);
        lemma_le_u64_same(out, at + 12, stub, 12);
    } else {
        lemma_pie_addresses(ehdr, phdrtab[x], BANNER@);
        lemma_same_bytes_part(out, at, stub, 0, stub.len() as int, 3, 4);
        lemma_le_u32_same(out, at + 3, stub, 3);
        lemma_same_bytes_part(out, at, stub, 0, stub.len() as int, 10, 4);
        lemma_le_u32_same(out, at + 10, stub, 10);
    }
}

} // verus!
