//! Packing an executable: from the bytes of an ELF64 image to the bytes of
//! the packed one.
//!
//! The steps are: read and check the headers, find the executable segment,
//! assemble the stub for it, rewrite the headers for one inserted page, store
//! them back, cipher the segment, and lay out the result with the stub and
//! its padding spliced in behind the segment.
use vstd::prelude::*;
use crate::bytes::{extend, extend_range, le_i32};
use crate::cipher::{cipher_range, xor_cipher};
use crate::elf::{check_end, fetch_headers, parse_headers, reported_offset, tables_inside};
use crate::elf::{Ehdr, Error, Phdr, Shdr};
use crate::packer::{generate_packer, packer_bytes, packer_in_range};
use crate::packer::{lemma_jump_reaches_entry, lemma_packer_len, BANNER, MAX_PACKER_LEN};
use crate::rewrite::{find_exec_segment, first_exec_segment, rewrite_headers};
use crate::rewrite::{rewritten_ehdr, rewritten_phdrs, rewritten_shdrs, Insertion};
use crate::store::{lemma_store_all_len, store_all, store_headers};

verus! {

/// `count` zero bytes.
pub open spec fn zeros(count: int) -> Seq<u8> {
    Seq::new(count as nat, |i: int| 0u8)
}

/// The packed file: `source` up to `insert_off`, the stub, zeros up to a
/// whole page, and the rest of `source`.
pub open spec fn packed_layout(source: Seq<u8>, insert_off: int, packer: Seq<u8>, pagesize: int) -> Seq<
    u8,
> {
    source.subrange(0, insert_off) + packer + zeros(pagesize - packer.len()) + source.subrange(
        insert_off,
        source.len() as int,
    )
}

/// The image as it is laid out around the stub: with the rewritten headers
/// stored where the headers were read, and then the executable segment
/// ciphered.
pub open spec fn packed_source(
    elf: Seq<u8>,
    ehdr: Ehdr,
    phdrtab: Seq<Phdr>,
    shdrtab: Seq<Shdr>,
    x: int,
    pagesize: u64,
) -> Seq<u8> {
    let xphdr = phdrtab[x];
    let stored = store_all(
        elf,
        ehdr.e_phoff as int,
        ehdr.e_shoff as int,
        rewritten_ehdr(ehdr, xphdr, pagesize),
        rewritten_phdrs(phdrtab, x, pagesize),
        rewritten_shdrs(shdrtab, xphdr, pagesize),
    );
    cipher_range(stored, xphdr.p_offset as int, xphdr.p_filesz as int)
}

/// The packed form of an image with the given headers, or the reason for
/// which it is refused: it has no executable segment, that segment ends
/// beyond the image, or the stub cannot be assembled for it, in this order.
pub open spec fn packed_with(
    elf: Seq<u8>,
    ehdr: Ehdr,
    phdrtab: Seq<Phdr>,
    shdrtab: Seq<Shdr>,
    pagesize: u64,
) -> Result<Seq<u8>, Error> {
    match first_exec_segment(phdrtab) {
        None => Err(Error::NoExecSegment),
        Some(x) => {
            let xphdr = phdrtab[x];
            let insert_off = xphdr.p_offset + xphdr.p_filesz;
            if insert_off > elf.len() {
                Err(Error::InvalidOffset(reported_offset(insert_off)))
            } else if !packer_in_range(ehdr, xphdr, BANNER@.len() as int) {
                Err(Error::JumpOutOfRange)
            } else {
                Ok(
                    packed_layout(
                        packed_source(elf, ehdr, phdrtab, shdrtab, x, pagesize),
                        insert_off,
                        packer_bytes(ehdr, xphdr, BANNER@),
                        pagesize as int,
                    ),
                )
            }
        },
    }
}

/// The packed form of an image, or the reason for which the image is
/// refused: the one for which its headers are refused, or else the one for
/// which it cannot be packed with its headers.
pub open spec fn packed(elf: Seq<u8>, pagesize: u64) -> Result<Seq<u8>, Error> {
    match parse_headers(elf) {
        Err(e) => Err(e),
        Ok((ehdr, phdrtab, shdrtab)) => packed_with(elf, ehdr, phdrtab, shdrtab, pagesize),
    }
}

/// Appends `count` zero bytes.
pub fn extend_zeros(out: &mut Vec<u8>, count: usize)
    ensures
        final(out)@ == old(out)@ + zeros(count as int),
{
    let mut i: usize = 0;
    while i < count
        invariant
            i <= count,
            out@ == old(out)@ + zeros(i as int),
        decreases count - i,
    {
        out.push(0);
        i += 1;
        assert(out@ =~= old(out)@ + zeros(i as int));
    }
}

/// Lays out the packed file: the bytes of `source` before `insert_off`, the
/// stub, zeros that fill the stub up to `pagesize` bytes, and the bytes of
/// `source` from `insert_off` on.
pub fn emit(source: &[u8], insert_off: usize, packer: &[u8], pagesize: usize) -> (out: Vec<u8>)
    requires
        insert_off <= source.len(),
        packer.len() <= pagesize,
    ensures
        out@ == packed_layout(source@, insert_off as int, packer@, pagesize as int),
        out@.len() == source.len() + pagesize,
{
    let padsize: usize = pagesize - packer.len();
    let mut out: Vec<u8> = Vec::new();
    extend_range(&mut out, source, 0, insert_off);
    extend(&mut out, packer);
    extend_zeros(&mut out, padsize);
    extend_range(&mut out, source, insert_off, source.len());
    out
}

/// Packs an image whose headers have been read: finds the executable
/// segment, assembles the stub, rewrites the headers, stores them, ciphers
/// the segment and lays out the packed file.
pub fn pack_with(
    elf: &[u8],
    ehdr: Ehdr,
    phdrtab: Vec<Phdr>,
    shdrtab: Vec<Shdr>,
    pagesize: u64,
) -> (r: Result<Vec<u8>, Error>)
    requires
        pagesize >= MAX_PACKER_LEN,
        elf.len() + pagesize <= usize::MAX,
        tables_inside(ehdr, phdrtab@.len(), shdrtab@.len(), elf@.len()),
    ensures
        match r {
            Ok(out) => packed_with(elf@, ehdr, phdrtab@, shdrtab@, pagesize) == Ok::<
                Seq<u8>,
                Error,
            >(out@) && out@.len() == elf.len() + pagesize,
            Err(e) => packed_with(elf@, ehdr, phdrtab@, shdrtab@, pagesize) == Err::<
                Seq<u8>,
                Error,
            >(e),
        },
{
    let mut ehdr = ehdr;
    let mut phdrtab = phdrtab;
    let mut shdrtab = shdrtab;
    let xidx: usize = match find_exec_segment(&phdrtab) {
        Some(idx) => idx,
        None => {
            return Err(Error::NoExecSegment);
        },
    };
    let xphdr: Phdr = phdrtab[xidx];
    match check_end(xphdr.p_offset as u128 + xphdr.p_filesz as u128, elf.len()) {
        Ok(()) => {},
        Err(e) => {
            return Err(e);
        },
    }
    let packer: Vec<u8> = match generate_packer(&ehdr, &xphdr) {
        Ok(packer) => packer,
        Err(e) => {
            return Err(e);
        },
    };

    let phoff: usize = ehdr.e_phoff as usize;
    let shoff: usize = ehdr.e_shoff as usize;
    let ins: Insertion = rewrite_headers(&mut ehdr, &mut phdrtab, &mut shdrtab, xidx, pagesize);

    let mut source: Vec<u8> = Vec::with_capacity(elf.len());
    extend(&mut source, elf);
    assert(source@ =~= elf@);
    store_headers(&mut source, phoff, shoff, &ehdr, &phdrtab, &shdrtab);
    xor_cipher(&mut source, ins.cipher_off as usize, ins.cipher_len as usize);

    Ok(emit(source.as_slice(), ins.insert_off as usize, packer.as_slice(), pagesize as usize))
}

/// Packs the executable whose bytes are `elf` for a machine with pages of
/// `pagesize` bytes, and returns the bytes of the packed executable.
///
/// The result is `elf` with its headers rewritten and its executable segment
/// ciphered, and with one page spliced in where that segment ended: the stub
/// that deciphers the segment at run time, filled up with zeros. An image
/// that is refused gives an error and no bytes.
pub fn pack(elf: &[u8], pagesize: u64) -> (r: Result<Vec<u8>, Error>)
    requires
        pagesize >= MAX_PACKER_LEN,
        elf.len() + pagesize <= usize::MAX,
    ensures
        match r {
            Ok(out) => packed(elf@, pagesize) == Ok::<Seq<u8>, Error>(out@) && out@.len()
                == elf.len() + pagesize,
            Err(e) => packed(elf@, pagesize) == Err::<Seq<u8>, Error>(e),
        },
        parse_headers(elf@) is Err ==> r is Err,
{
    match fetch_headers(elf) {
        Ok((ehdr, phdrtab, shdrtab)) => pack_with(elf, ehdr, phdrtab, shdrtab, pagesize),
        Err(e) => Err(e),
    }
}

/// A packed executable is exactly one page longer than the image it was
/// made from.
pub proof fn lemma_packed_len(elf: Seq<u8>, pagesize: u64)
    requires
        pagesize >= MAX_PACKER_LEN,
        packed(elf, pagesize) is Ok,
    ensures
        packed(elf, pagesize)->Ok_0.len() == elf.len() + pagesize,
{
    let (ehdr, phdrtab, shdrtab) = parse_headers(elf)->Ok_0;
    let x = first_exec_segment(phdrtab)->Some_0;
    let xphdr = phdrtab[x];
    lemma_packer_len(ehdr, xphdr, BANNER@);
    lemma_store_all_len(
        elf,
        ehdr.e_phoff as int,
        ehdr.e_shoff as int,
        rewritten_ehdr(ehdr, xphdr, pagesize),
        rewritten_phdrs(phdrtab, x, pagesize),
        rewritten_shdrs(shdrtab, xphdr, pagesize),
    );
}

/// An image whose headers are refused is not packed: the result is the
/// error that its headers were refused with.
pub proof fn lemma_refused_headers_refuse_packing(elf: Seq<u8>, pagesize: u64)
    requires
        parse_headers(elf) is Err,
    ensures
        packed(elf, pagesize) == Err::<Seq<u8>, Error>(parse_headers(elf)->Err_0),
{
}

/// The parts of a packed file lie where the layout puts them: the source up
/// to the insertion, the stub, zeros up to the end of the page, and the rest
/// of the source one page further on.
pub proof fn lemma_packed_layout(source: Seq<u8>, insert_off: int, packer: Seq<u8>, pagesize: int)
    requires
        0 <= insert_off <= source.len(),
        packer.len() <= pagesize,
    ensures
        ({
            let out = packed_layout(source, insert_off, packer, pagesize);
            &&& out.len() == source.len() + pagesize
            &&& out.subrange(0, insert_off) == source.subrange(0, insert_off)
            &&& out.subrange(insert_off, insert_off + packer.len()) == packer
            &&& out.subrange(insert_off + packer.len(), insert_off + pagesize) == zeros(
                pagesize - packer.len(),
            )
            &&& out.subrange(insert_off + pagesize, out.len() as int) == source.subrange(
                insert_off,
                source.len() as int,
            )
        }),
{
    let out = packed_layout(source, insert_off, packer, pagesize);
    assert(out.subrange(0, insert_off) =~= source.subrange(0, insert_off));
    assert(out.subrange(insert_off, insert_off + packer.len()) =~= packer);
    assert(out.subrange(insert_off + packer.len(), insert_off + pagesize) =~= zeros(
        pagesize - packer.len(),
    ));
    assert(out.subrange(insert_off + pagesize, out.len() as int) =~= source.subrange(
        insert_off,
        source.len() as int,
    ));
}

/// The closing jump of the stub leads from the packed executable back into
/// the host program: for a segment that is as long in memory as in the file,
/// the stub is loaded at the rewritten entry point, and the displacement in
/// its last four bytes, added to the address behind the stub, gives the entry
/// point that the image had before.
pub proof fn lemma_jump_closes_loop(ehdr: Ehdr, xphdr: Phdr, pagesize: u64)
    requires
        xphdr.p_filesz == xphdr.p_memsz,
        xphdr.p_vaddr + xphdr.p_filesz <= u64::MAX,
        packer_in_range(ehdr, xphdr, BANNER@.len() as int),
    ensures
        ({
            let stub = packer_bytes(ehdr, xphdr, BANNER@);
            let stub_addr = rewritten_ehdr(ehdr, xphdr, pagesize).e_entry;
            stub_addr + stub.len() + le_i32(stub, stub.len() - 4) == ehdr.e_entry
        }),
{
    lemma_jump_reaches_entry(ehdr, xphdr, BANNER@);
}

} // verus!
