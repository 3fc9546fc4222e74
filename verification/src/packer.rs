//! The stub that a packed executable starts with.
//!
//! The stub is machine code for x86_64 in three parts. The first loads the
//! bounds of the ciphered segment into `rax` and `rdi`, the second walks from
//! one to the other and deciphers each byte, the third prints a banner, clears
//! the registers it used and jumps to the entry point of the host program.
//! The banner is `woody` and a newline unless another is asked for.
use vstd::prelude::*;
use crate::bytes::{extend, fits_i32, le_bytes_u32, le_bytes_u64, le_i32, le_u64};
use crate::bytes::{lemma_le_i32_of_bytes, lemma_le_u64_of_bytes};
use crate::bytes::{push_u32, push_u64, twos_complement_u32, wrapping_sum};
use crate::cipher::CIPHER_KEY;
use crate::elf::{Ehdr, Error, Phdr, ET_EXEC};

verus! {

/// The banner that a packed executable prints before it runs: `woody` and a
/// newline.
pub const BANNER: [u8; 6] = [0x77, 0x6f, 0x6f, 0x64, 0x79, 0x0a];

/// Length of the longest banner that the stub can hold: its frame on the
/// stack and the place of each byte in it are signed 8-bit fields.
pub const MAX_BANNER_LEN: usize = 127;

/// Length of the part that prints `BANNER` and jumps.
pub const WOODY_LEN: usize = 74;

/// Length of the first part for an executable linked at a fixed address.
pub const NO_PIE_INIT_LEN: usize = 20;

/// Length of the first part for a position-independent executable.
pub const PIE_INIT_LEN: usize = 14;

/// Length of the deciphering loop.
pub const PACKER_LOOP_LEN: usize = 12;

/// Length of the longest stub that prints `BANNER`.
pub const MAX_PACKER_LEN: usize = 106;

/// The first part with absolute addresses: `mov rax, start; mov rdi, end`.
pub open spec fn no_pie_init(start: u64, end: u64) -> Seq<u8> {
    seq![0x48u8, 0xb8] + le_bytes_u64(start as int) + seq![0x48u8, 0xbf] + le_bytes_u64(end as int)
}

/// The first part with addresses relative to `rip`:
/// `lea rax, [rip + start]; lea rdi, [rip + end]`.
pub open spec fn pie_init(start: int, end: int) -> Seq<u8> {
    seq![0x48u8, 0x8d, 0x05] + le_bytes_u32(twos_complement_u32(start)) + seq![0x48u8, 0x8d, 0x3d]
        + le_bytes_u32(twos_complement_u32(end))
}

/// The displacement from the end of the first `lea` back to the start of a
/// segment of `memsz` bytes that ends where the stub begins.
pub open spec fn pie_start_displacement(memsz: u64) -> int {
    -(7 + memsz)
}

/// The displacement from the end of the second `lea` back to the end of the
/// segment, which is where the stub begins.
pub open spec fn pie_end_displacement() -> int {
    -14
}

/// The deciphering loop:
/// `xor byte [rax], key; add rax, 1; cmp rax, rdi; jne` back to the `xor`.
pub open spec fn packer_loop() -> Seq<u8> {
    seq![0x80u8, 0x30, CIPHER_KEY, 0x48, 0x83, 0xc0, 0x01, 0x48, 0x39, 0xf8, 0x75, 0xf4]
}

/// The instruction that stores byte `k` of the banner into the frame:
/// `mov byte [rsp + k], c`, without a displacement for the first byte.
pub open spec fn banner_store(k: int, c: u8) -> Seq<u8> {
    if k == 0 {
        seq![0xc6u8, 0x04, 0x24, c]
    } else {
        seq![0xc6u8, 0x44, 0x24, k as u8, c]
    }
}

/// The instructions that store the first `count` bytes of `banner`.
pub open spec fn banner_stores(banner: Seq<u8>, count: int) -> Seq<u8>
    decreases count,
{
    if count <= 0 {
        Seq::empty()
    } else {
        banner_stores(banner, count - 1) + banner_store(count - 1, banner[count - 1])
    }
}

/// How the last part begins: `sub rsp, len; mov edi, 1`, a frame for a
/// banner of `len` bytes and standard output as the place to write it.
pub open spec fn woody_frame(len: int) -> Seq<u8> {
    seq![0x48u8, 0x83, 0xec, len as u8, 0xbf, 0x01, 0x00, 0x00, 0x00]
}

/// How the last part goes on once the banner is stored, up to the opcode of
/// the closing `jmp`: `mov rsi, rsp; mov edx, len; mov eax, 1; syscall`
/// writes the banner, `add rsp, len` gives the frame back, and four `xor`
/// clear `rdi`, `rsi`, `rdx` and `rax`.
pub open spec fn woody_write(len: int) -> Seq<u8> {
    seq![
        0x48u8, 0x89, 0xe6,
        0xba, len as u8, 0x00, 0x00, 0x00,
        0xb8, 0x01, 0x00, 0x00, 0x00,
        0x0f, 0x05,
        0x48, 0x83, 0xc4, len as u8,
        0x48, 0x31, 0xff,
        0x48, 0x31, 0xf6,
        0x48, 0x31, 0xd2,
        0x48, 0x31, 0xc0,
        0xe9,
    ]
}

/// The last part up to and including the opcode of its closing `jmp`.
pub open spec fn woody_code(banner: Seq<u8>) -> Seq<u8> {
    woody_frame(banner.len() as int) + banner_stores(banner, banner.len() as int) + woody_write(
        banner.len() as int,
    )
}

/// The last part, closed by a jump over `jump` bytes.
pub open spec fn woody(banner: Seq<u8>, jump: int) -> Seq<u8> {
    woody_code(banner) + le_bytes_u32(twos_complement_u32(jump))
}

/// Length of the last part for a banner of `banner_len` bytes.
pub open spec fn woody_len(banner_len: int) -> int {
    if banner_len <= 0 {
        45
    } else {
        44 + 5 * banner_len
    }
}

/// Length of the stub for an executable of type `e_type` and a banner of
/// `banner_len` bytes.
pub open spec fn packer_len(e_type: u16, banner_len: int) -> int {
    if e_type == ET_EXEC {
        NO_PIE_INIT_LEN + PACKER_LOOP_LEN + woody_len(banner_len)
    } else {
        PIE_INIT_LEN + PACKER_LOOP_LEN + woody_len(banner_len)
    }
}

/// The first part of the stub for a segment: absolute addresses for an
/// executable linked at a fixed address, displacements from `rip` for any
/// other.
pub open spec fn packer_init(ehdr: Ehdr, xphdr: Phdr) -> Seq<u8> {
    if ehdr.e_type == ET_EXEC {
        no_pie_init(xphdr.p_vaddr, wrapping_sum(xphdr.p_vaddr, xphdr.p_memsz))
    } else {
        pie_init(pie_start_displacement(xphdr.p_memsz), pie_end_displacement())
    }
}

/// The distance that the closing jump covers: from the address behind a stub
/// that begins where the segment ends in memory to the entry point.
pub open spec fn jump_displacement(ehdr: Ehdr, xphdr: Phdr, banner_len: int) -> int {
    ehdr.e_entry - (xphdr.p_vaddr + xphdr.p_memsz + packer_len(ehdr.e_type, banner_len))
}

/// Whether every displacement of the stub fits its 32-bit field.
pub open spec fn packer_in_range(ehdr: Ehdr, xphdr: Phdr, banner_len: int) -> bool {
    &&& ehdr.e_type != ET_EXEC ==> fits_i32(pie_start_displacement(xphdr.p_memsz))
    &&& fits_i32(jump_displacement(ehdr, xphdr, banner_len))
}

/// The stub for an executable with file header `ehdr` and executable segment
/// `xphdr` that prints `banner`.
pub open spec fn packer_bytes(ehdr: Ehdr, xphdr: Phdr, banner: Seq<u8>) -> Seq<u8> {
    packer_init(ehdr, xphdr) + packer_loop() + woody(
        banner,
        jump_displacement(ehdr, xphdr, banner.len() as int),
    )
}

/// The instructions that store `count` bytes are five bytes each, but for
/// the first, which is four.
pub proof fn lemma_banner_stores_len(banner: Seq<u8>, count: int)
    requires
        0 <= count,
    ensures
        banner_stores(banner, count).len() == if count == 0 {
            0
        } else {
            5 * count - 1
        },
    decreases count,
{
    if count > 0 {
        lemma_banner_stores_len(banner, count - 1);
    }
}

/// Emits the last part up to and including the opcode of its closing `jmp`,
/// for a stub that prints `banner`.
pub fn woody_instructions(banner: &[u8]) -> (code: Vec<u8>)
    requires
        banner.len() <= MAX_BANNER_LEN,
    ensures
        code@ == woody_code(banner@),
        code@.len() == woody_len(banner.len() as int) - 4,
{
    let len: u8 = banner.len() as u8;
    let mut code: Vec<u8> = vec![0x48u8, 0x83, 0xec, len, 0xbf, 0x01, 0x00, 0x00, 0x00];
    assert(code@ =~= woody_frame(banner.len() as int));
    let mut k: usize = 0;
    while k < banner.len()
        invariant
            k <= banner.len() <= MAX_BANNER_LEN,
            code@ == woody_frame(banner.len() as int) + banner_stores(banner@, k as int),
        decreases banner.len() - k,
    {
        let ghost before = code@;
        code.push(0xc6);
        if k == 0 {
            code.push(0x04);
            code.push(0x24);
        } else {
            code.push(0x44);
            code.push(0x24);
            code.push(k as u8);
        }
        code.push(banner[k]);
        assert(code@ =~= before + banner_store(k as int, banner@[k as int]));
        k += 1;
        assert(code@ =~= woody_frame(banner.len() as int) + banner_stores(banner@, k as int));
    }
    let write: Vec<u8> = vec![
        0x48u8, 0x89, 0xe6,
        0xba, len, 0x00, 0x00, 0x00,
        0xb8, 0x01, 0x00, 0x00, 0x00,
        0x0f, 0x05,
        0x48, 0x83, 0xc4, len,
        0x48, 0x31, 0xff,
        0x48, 0x31, 0xf6,
        0x48, 0x31, 0xd2,
        0x48, 0x31, 0xc0,
        0xe9,
    ];
    assert(write@ =~= woody_write(banner.len() as int));
    extend(&mut code, write.as_slice());
    proof {
        lemma_banner_stores_len(banner@, banner.len() as int);
    }
    code
}

/// The 32-bit field for the distance from `from` to `to`, if the distance fits.
pub fn displacement(to: u128, from: u128) -> (r: Option<u32>)
    ensures
        fits_i32(to - from) ==> r == Some(twos_complement_u32(to - from) as u32),
        !fits_i32(to - from) ==> r.is_none(),
{
    if to >= from {
        let forward: u128 = to - from;
        if forward < 0x8000_0000 {
            Some(forward as u32)
        } else {
            None
        }
    } else {
        let back: u128 = from - to;
        if back <= 0x8000_0000 {
            let field: u128 = 0x1_0000_0000 - back;
            Some(field as u32)
        } else {
            None
        }
    }
}

/// Emits the first part for an executable linked at a fixed address: the
/// start of the segment goes to `rax`, its end to `rdi`.
pub fn generate_no_pie(xphdr: &Phdr) -> (init: Vec<u8>)
    ensures
        init@ == no_pie_init(xphdr.p_vaddr, wrapping_sum(xphdr.p_vaddr, xphdr.p_memsz)),
        init@.len() == NO_PIE_INIT_LEN,
{
    let start: u64 = xphdr.p_vaddr;
    let end: u64 = xphdr.p_vaddr.wrapping_add(xphdr.p_memsz);
    let mut init: Vec<u8> = Vec::with_capacity(NO_PIE_INIT_LEN);
    init.push(0x48);
    init.push(0xb8);
    push_u64(&mut init, start);
    init.push(0x48);
    init.push(0xbf);
    push_u64(&mut init, end);
    assert(init@ =~= no_pie_init(start, end));
    init
}

/// Emits the first part for a position-independent executable: both bounds
/// of the segment are taken relative to `rip`. Fails if the segment is too
/// long for the stub to reach its start.
pub fn generate_pie(xphdr: &Phdr) -> (r: Result<Vec<u8>, Error>)
    ensures
        match r {
            Ok(init) => {
                &&& fits_i32(pie_start_displacement(xphdr.p_memsz))
                &&& init@ == pie_init(pie_start_displacement(xphdr.p_memsz), pie_end_displacement())
                &&& init@.len() == PIE_INIT_LEN
            },
            Err(e) => e == Error::JumpOutOfRange && !fits_i32(
                pie_start_displacement(xphdr.p_memsz),
            ),
        },
{
    let start: u32 = match displacement(0, 7 + xphdr.p_memsz as u128) {
        Some(field) => field,
        None => {
            return Err(Error::JumpOutOfRange);
        },
    };
    // -14 in two's complement
    let end: u32 = 0xffff_fff2;
    let mut init: Vec<u8> = Vec::with_capacity(PIE_INIT_LEN);
    init.push(0x48);
    init.push(0x8d);
    init.push(0x05);
    push_u32(&mut init, start);
    init.push(0x48);
    init.push(0x8d);
    init.push(0x3d);
    push_u32(&mut init, end);
    assert(init@ =~= pie_init(pie_start_displacement(xphdr.p_memsz), pie_end_displacement()));
    Ok(init)
}

/// Emits the deciphering loop.
pub fn packer_loop_instructions() -> (code: Vec<u8>)
    ensures
        code@ == packer_loop(),
{
    let code: Vec<u8> = vec![
        0x80u8, 0x30, CIPHER_KEY, 0x48, 0x83, 0xc0, 0x01, 0x48, 0x39, 0xf8, 0x75, 0xf4,
    ];
    assert(code@ =~= packer_loop());
    code
}

/// Assembles the stub for an executable with file header `ehdr` and
/// executable segment `xphdr` that prints `banner` before it runs the
/// program.
///
/// The stub is made for the place where the segment ends in memory. It fails
/// with `JumpOutOfRange` if a displacement does not fit its 32-bit field: the
/// one of the closing jump, or, in a position-independent executable, the one
/// that reaches back to the start of the segment.
pub fn generate_packer_with_banner(ehdr: &Ehdr, xphdr: &Phdr, banner: &[u8]) -> (r: Result<
    Vec<u8>,
    Error,
>)
    requires
        banner.len() <= MAX_BANNER_LEN,
    ensures
        packer_in_range(*ehdr, *xphdr, banner.len() as int) ==> r.is_ok() && r.unwrap()@
            == packer_bytes(*ehdr, *xphdr, banner@),
        !packer_in_range(*ehdr, *xphdr, banner.len() as int) ==> r == Err::<Vec<u8>, Error>(
            Error::JumpOutOfRange,
        ),
        r.is_ok() ==> r.unwrap()@.len() == packer_len(ehdr.e_type, banner.len() as int),
{
    let init: Vec<u8> = if ehdr.e_type == ET_EXEC {
        generate_no_pie(xphdr)
    } else {
        match generate_pie(xphdr) {
            Ok(init) => init,
            Err(e) => {
                return Err(e);
            },
        }
    };
    let packer_loop: Vec<u8> = packer_loop_instructions();
    let woody: Vec<u8> = woody_instructions(banner);
    let insert_size: usize = init.len() + packer_loop.len() + woody.len() + 4;
    let behind: u128 = xphdr.p_vaddr as u128 + xphdr.p_memsz as u128 + insert_size as u128;
    let jump: u32 = match displacement(ehdr.e_entry as u128, behind) {
        Some(field) => field,
        None => {
            return Err(Error::JumpOutOfRange);
        },
    };
    let mut packer: Vec<u8> = Vec::with_capacity(insert_size);
    extend(&mut packer, init.as_slice());
    extend(&mut packer, packer_loop.as_slice());
    extend(&mut packer, woody.as_slice());
    push_u32(&mut packer, jump);
    assert(packer@ =~= packer_bytes(*ehdr, *xphdr, banner@));
    Ok(packer)
}

/// Assembles the stub for an executable with file header `ehdr` and
/// executable segment `xphdr`. The stub prints `BANNER`.
pub fn generate_packer(ehdr: &Ehdr, xphdr: &Phdr) -> (r: Result<Vec<u8>, Error>)
    ensures
        packer_in_range(*ehdr, *xphdr, BANNER@.len() as int) ==> r.is_ok() && r.unwrap()@
            == packer_bytes(*ehdr, *xphdr, BANNER@),
        !packer_in_range(*ehdr, *xphdr, BANNER@.len() as int) ==> r == Err::<Vec<u8>, Error>(
            Error::JumpOutOfRange,
        ),
        r.is_ok() ==> r.unwrap()@.len() == packer_len(ehdr.e_type, BANNER@.len() as int),
{
    let banner = BANNER;
    generate_packer_with_banner(ehdr, xphdr, &banner)
}

/// A stub is as long as its three parts together, and a stub that prints
/// `BANNER` is no longer than `MAX_PACKER_LEN`.
pub proof fn lemma_packer_len(ehdr: Ehdr, xphdr: Phdr, banner: Seq<u8>)
    ensures
        packer_bytes(ehdr, xphdr, banner).len() == packer_len(ehdr.e_type, banner.len() as int),
        packer_len(ehdr.e_type, BANNER@.len() as int) <= MAX_PACKER_LEN,
{
    lemma_banner_stores_len(banner, banner.len() as int);
}

/// The closing jump leads back to the entry point: read from the last four
/// bytes of the stub and added to the address behind a stub that begins
/// where the segment ends in memory, its displacement gives `e_entry`.
pub proof fn lemma_jump_reaches_entry(ehdr: Ehdr, xphdr: Phdr, banner: Seq<u8>)
    requires
        packer_in_range(ehdr, xphdr, banner.len() as int),
    ensures
        ({
            let stub = packer_bytes(ehdr, xphdr, banner);
            let stub_addr = xphdr.p_vaddr + xphdr.p_memsz;
            &&& stub[stub.len() - 5] == 0xe9
            &&& stub_addr + stub.len() + le_i32(stub, stub.len() - 4) == ehdr.e_entry
        }),
{
    let stub = packer_bytes(ehdr, xphdr, banner);
    let jump = jump_displacement(ehdr, xphdr, banner.len() as int);
    let field = le_bytes_u32(twos_complement_u32(jump));
    let code = woody_code(banner);
    let write = woody_write(banner.len() as int);
    let at = stub.len() - 4;
    lemma_packer_len(ehdr, xphdr, banner);
    lemma_le_i32_of_bytes(jump);
    assert(stub.subrange(at, at + 4) =~= field);
    assert(le_i32(stub, at) == le_i32(stub.subrange(at, at + 4), 0));
    assert(code[code.len() - 1] == write[write.len() - 1]);
    assert(stub[at - 1] == code[code.len() - 1]);
}

/// In an executable linked at a fixed address the stub addresses the segment
/// absolutely: `rax` is loaded with the address at which the segment starts,
/// `rdi` with the address at which it ends.
pub proof fn lemma_no_pie_addresses(ehdr: Ehdr, xphdr: Phdr, banner: Seq<u8>)
    requires
        ehdr.e_type == ET_EXEC,
    ensures
        ({
            let stub = packer_bytes(ehdr, xphdr, banner);
            &&& stub.subrange(0, 2) == seq![0x48u8, 0xb8]
            &&& le_u64(stub, 2) == xphdr.p_vaddr
            &&& stub.subrange(10, 12) == seq![0x48u8, 0xbf]
            &&& le_u64(stub, 12) == wrapping_sum(xphdr.p_vaddr, xphdr.p_memsz)
        }),
{
    let stub = packer_bytes(ehdr, xphdr, banner);
    let start = xphdr.p_vaddr;
    let end = wrapping_sum(xphdr.p_vaddr, xphdr.p_memsz);
    lemma_le_u64_of_bytes(start as int);
    lemma_le_u64_of_bytes(end as int);
    assert(stub.subrange(0, 2) =~= seq![0x48u8, 0xb8]);
    assert(stub.subrange(10, 12) =~= seq![0x48u8, 0xbf]);
    assert(stub.subrange(2, 10) =~= le_bytes_u64(start as int));
    assert(stub.subrange(12, 20) =~= le_bytes_u64(end as int));
    assert(le_u64(stub, 2) == le_u64(stub.subrange(2, 10), 0));
    assert(le_u64(stub, 12) == le_u64(stub.subrange(12, 20), 0));
}

/// In a position-independent executable the stub addresses the segment
/// relative to `rip`: for a stub that begins where the segment ends in
/// memory, the first `lea` gives the address at which the segment starts and
/// the second the address at which it ends.
pub proof fn lemma_pie_addresses(ehdr: Ehdr, xphdr: Phdr, banner: Seq<u8>)
    requires
        ehdr.e_type != ET_EXEC,
        packer_in_range(ehdr, xphdr, banner.len() as int),
    ensures
        ({
            let stub = packer_bytes(ehdr, xphdr, banner);
            let stub_addr = xphdr.p_vaddr + xphdr.p_memsz;
            &&& stub.subrange(0, 3) == seq![0x48u8, 0x8d, 0x05]
            &&& le_i32(stub, 3) == pie_start_displacement(xphdr.p_memsz)
            &&& stub_addr + 7 + le_i32(stub, 3) == xphdr.p_vaddr
            &&& stub.subrange(7, 10) == seq![0x48u8, 0x8d, 0x3d]
            &&& le_i32(stub, 10) == pie_end_displacement()
            &&& stub_addr + 14 + le_i32(stub, 10) == xphdr.p_vaddr + xphdr.p_memsz
        }),
{
    let stub = packer_bytes(ehdr, xphdr, banner);
    let start = pie_start_displacement(xphdr.p_memsz);
    let end = pie_end_displacement();
    lemma_le_i32_of_bytes(start);
    lemma_le_i32_of_bytes(end);
    assert(stub.subrange(0, 3) =~= seq![0x48u8, 0x8d, 0x05]);
    assert(stub.subrange(7, 10) =~= seq![0x48u8, 0x8d, 0x3d]);
    assert(stub.subrange(3, 7) =~= le_bytes_u32(twos_complement_u32(start)));
    assert(stub.subrange(10, 14) =~= le_bytes_u32(twos_complement_u32(end)));
    assert(le_i32(stub, 3) == le_i32(stub.subrange(3, 7), 0));
    assert(le_i32(stub, 10) == le_i32(stub.subrange(10, 14), 0));
}

} // verus!
