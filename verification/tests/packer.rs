use woody_woodpacker::elf::{Ehdr, Error, Phdr};
use woody_woodpacker::packer::{displacement, generate_no_pie, generate_packer, generate_pie};
use woody_woodpacker::packer::{generate_packer_with_banner, packer_loop_instructions};
use woody_woodpacker::packer::{woody_instructions, BANNER, MAX_BANNER_LEN, MAX_PACKER_LEN};
use woody_woodpacker::packer::{NO_PIE_INIT_LEN, PACKER_LOOP_LEN, PIE_INIT_LEN, WOODY_LEN};

fn ehdr(e_type: u16, e_entry: u64) -> Ehdr {
    Ehdr {
        e_magic: 0x464c_457f,
        e_class: 2,
        e_data: 1,
        e_type,
        e_machine: 62,
        e_entry,
        e_phoff: 64,
        e_shoff: 0,
        e_phentsize: 56,
        e_phnum: 1,
        e_shentsize: 64,
        e_shnum: 0,
    }
}

fn segment(p_vaddr: u64, p_memsz: u64) -> Phdr {
    Phdr { p_type: 1, p_flags: 5, p_offset: 0x1000, p_vaddr, p_filesz: p_memsz, p_memsz }
}

fn i32_at(buf: &[u8], at: usize) -> i32 {
    i32::from_le_bytes([buf[at], buf[at + 1], buf[at + 2], buf[at + 3]])
}

fn u64_at(buf: &[u8], at: usize) -> u64 {
    let mut b = [0u8; 8];
    b.copy_from_slice(&buf[at..at + 8]);
    u64::from_le_bytes(b)
}

#[test]
fn part_lengths() {
    assert_eq!(WOODY_LEN, 74);
    assert_eq!(NO_PIE_INIT_LEN, 20);
    assert_eq!(PIE_INIT_LEN, 14);
    assert_eq!(PACKER_LOOP_LEN, 12);
    assert_eq!(MAX_PACKER_LEN, NO_PIE_INIT_LEN + PACKER_LOOP_LEN + WOODY_LEN);
    assert_eq!(MAX_BANNER_LEN, 127);
    assert_eq!(woody_instructions(&BANNER).len() + 4, WOODY_LEN);
}

#[test]
fn banner_is_woody_and_a_newline() {
    assert_eq!(BANNER.to_vec(), b"woody\n".to_vec());
}

#[test]
fn displacement_is_twos_complement() {
    assert_eq!(displacement(10, 10), Some(0));
    assert_eq!(displacement(11, 10), Some(1));
    assert_eq!(displacement(10, 11), Some(0xffff_ffff));
    assert_eq!(displacement(0, 14), Some(0xffff_fff2));
    assert_eq!(displacement(0, 0x107), Some(0xffff_fef9));
    assert_eq!(displacement(0x7fff_ffff, 0), Some(0x7fff_ffff));
    assert_eq!(displacement(0, 0x8000_0000), Some(0x8000_0000));
}

#[test]
fn displacement_refuses_what_does_not_fit() {
    assert_eq!(displacement(0x8000_0000, 0), None);
    assert_eq!(displacement(0, 0x8000_0001), None);
    assert_eq!(displacement(u64::MAX as u128, 0), None);
    assert_eq!(displacement(0, u64::MAX as u128 * 3), None);
}

#[test]
fn no_pie_init_loads_both_bounds() {
    let init = generate_no_pie(&segment(0x401000, 0x100));
    assert_eq!(
        init,
        vec![
            0x48, 0xb8, 0x00, 0x10, 0x40, 0x00, 0x00, 0x00, 0x00, 0x00, //
            0x48, 0xbf, 0x00, 0x11, 0x40, 0x00, 0x00, 0x00, 0x00, 0x00,
        ]
    );
}

#[test]
fn no_pie_init_wraps_the_end() {
    let init = generate_no_pie(&segment(0xffff_ffff_ffff_fff0, 0x20));
    assert_eq!(init.len(), 20);
    assert_eq!(u64_at(&init, 2), 0xffff_ffff_ffff_fff0);
    assert_eq!(u64_at(&init, 12), 0x10);
}

#[test]
fn pie_init_reaches_back_over_the_segment() {
    let init = generate_pie(&segment(0x1000, 0x100)).unwrap();
    assert_eq!(
        init,
        vec![
            0x48, 0x8d, 0x05, 0xf9, 0xfe, 0xff, 0xff, //
            0x48, 0x8d, 0x3d, 0xf2, 0xff, 0xff, 0xff,
        ]
    );
    assert_eq!(i32_at(&init, 3), -0x107);
    assert_eq!(i32_at(&init, 10), -14);
}

#[test]
fn pie_init_of_an_empty_segment() {
    let init = generate_pie(&segment(0x1000, 0)).unwrap();
    assert_eq!(i32_at(&init, 3), -7);
    assert_eq!(i32_at(&init, 10), -14);
}

#[test]
fn pie_init_limit() {
    let init = generate_pie(&segment(0x1000, 0x7fff_fff9)).unwrap();
    assert_eq!(i32_at(&init, 3), i32::MIN);
    assert_eq!(generate_pie(&segment(0x1000, 0x7fff_fffa)), Err(Error::JumpOutOfRange));
    assert_eq!(generate_pie(&segment(0x1000, u64::MAX)), Err(Error::JumpOutOfRange));
}

#[test]
fn loop_xors_with_the_cipher_key() {
    assert_eq!(
        packer_loop_instructions(),
        vec![0x80, 0x30, 0x61, 0x48, 0x83, 0xc0, 0x01, 0x48, 0x39, 0xf8, 0x75, 0xf4]
    );
}

#[test]
fn woody_writes_the_banner() {
    let code = woody_instructions(&BANNER);
    assert_eq!(
        code,
        vec![
            0x48, 0x83, 0xec, 0x06, // sub rsp, 6
            0xbf, 0x01, 0x00, 0x00, 0x00, // mov edi, 1
            0xc6, 0x04, 0x24, b'w', // mov byte [rsp], 'w'
            0xc6, 0x44, 0x24, 0x01, b'o', // mov byte [rsp + 1], 'o'
            0xc6, 0x44, 0x24, 0x02, b'o', // mov byte [rsp + 2], 'o'
            0xc6, 0x44, 0x24, 0x03, b'd', // mov byte [rsp + 3], 'd'
            0xc6, 0x44, 0x24, 0x04, b'y', // mov byte [rsp + 4], 'y'
            0xc6, 0x44, 0x24, 0x05, b'\n', // mov byte [rsp + 5], '\n'
            0x48, 0x89, 0xe6, // mov rsi, rsp
            0xba, 0x06, 0x00, 0x00, 0x00, // mov edx, 6
            0xb8, 0x01, 0x00, 0x00, 0x00, // mov eax, 1
            0x0f, 0x05, // syscall
            0x48, 0x83, 0xc4, 0x06, // add rsp, 6
            0x48, 0x31, 0xff, // xor rdi, rdi
            0x48, 0x31, 0xf6, // xor rsi, rsi
            0x48, 0x31, 0xd2, // xor rdx, rdx
            0x48, 0x31, 0xc0, // xor rax, rax
            0xe9, // jmp
        ]
    );
}

#[test]
fn woody_with_a_longer_banner() {
    let code = woody_instructions(b"...WOODY...\n");
    assert_eq!(
        code,
        vec![
            0x48, 0x83, 0xec, 0x0c, //
            0xbf, 0x01, 0x00, 0x00, 0x00, //
            0xc6, 0x04, 0x24, 0x2e, //
            0xc6, 0x44, 0x24, 0x01, 0x2e, //
            0xc6, 0x44, 0x24, 0x02, 0x2e, //
            0xc6, 0x44, 0x24, 0x03, 0x57, //
            0xc6, 0x44, 0x24, 0x04, 0x4f, //
            0xc6, 0x44, 0x24, 0x05, 0x4f, //
            0xc6, 0x44, 0x24, 0x06, 0x44, //
            0xc6, 0x44, 0x24, 0x07, 0x59, //
            0xc6, 0x44, 0x24, 0x08, 0x2e, //
            0xc6, 0x44, 0x24, 0x09, 0x2e, //
            0xc6, 0x44, 0x24, 0x0a, 0x2e, //
            0xc6, 0x44, 0x24, 0x0b, 0x0a, //
            0x48, 0x89, 0xe6, //
            0xba, 0x0c, 0x00, 0x00, 0x00, //
            0xb8, 0x01, 0x00, 0x00, 0x00, //
            0x0f, 0x05, //
            0x48, 0x83, 0xc4, 0x0c, //
            0x48, 0x31, 0xff, //
            0x48, 0x31, 0xf6, //
            0x48, 0x31, 0xd2, //
            0x48, 0x31, 0xc0, //
            0xe9,
        ]
    );
    assert_eq!(code.len() + 4, 104);
}

#[test]
fn woody_with_banners_at_both_limits() {
    let code = woody_instructions(&[]);
    assert_eq!(code.len(), 41);
    assert_eq!(&code[..9], &[0x48, 0x83, 0xec, 0x00, 0xbf, 0x01, 0x00, 0x00, 0x00]);
    assert_eq!(&code[9..12], &[0x48, 0x89, 0xe6]);
    let banner = [b'x'; 127];
    let code = woody_instructions(&banner);
    assert_eq!(code.len(), 44 + 5 * 127 - 4);
    assert_eq!(code[3], 127);
    // the last store goes to [rsp + 126]
    let at = 9 + 4 + 5 * 125;
    assert_eq!(&code[at..at + 5], &[0xc6, 0x44, 0x24, 126, b'x']);
    assert_eq!(&code[at + 5..at + 8], &[0x48, 0x89, 0xe6]);
    assert_eq!(code[at + 9], 127);
}

#[test]
fn packer_for_a_fixed_address() {
    let e = ehdr(2, 0x401000);
    let x = segment(0x401000, 0x100);
    let packer = generate_packer(&e, &x).unwrap();
    assert_eq!(packer.len(), 106);
    assert_eq!(packer[..20].to_vec(), generate_no_pie(&x));
    assert_eq!(packer[20..32].to_vec(), packer_loop_instructions());
    assert_eq!(packer[32..102].to_vec(), woody_instructions(&BANNER));
    // 0x401000 - (0x401000 + 0x100 + 106) = -362
    assert_eq!(i32_at(&packer, 102), -362);
    assert_eq!(&packer[102..], &[0x96, 0xfe, 0xff, 0xff]);
}

#[test]
fn packer_for_a_position_independent_executable() {
    let e = ehdr(3, 0x1000);
    let x = segment(0x1000, 0x100);
    let packer = generate_packer(&e, &x).unwrap();
    assert_eq!(packer.len(), 100);
    assert_eq!(packer[..14].to_vec(), generate_pie(&x).unwrap());
    assert_eq!(packer[14..26].to_vec(), packer_loop_instructions());
    assert_eq!(packer[26..96].to_vec(), woody_instructions(&BANNER));
    // 0x1000 - (0x1000 + 0x100 + 100) = -356
    assert_eq!(i32_at(&packer, 96), -356);
}

#[test]
fn packer_with_a_longer_banner() {
    let e = ehdr(2, 0x401000);
    let x = segment(0x401000, 0x100);
    let banner = b"...WOODY...\n";
    let packer = generate_packer_with_banner(&e, &x, banner).unwrap();
    assert_eq!(packer.len(), 136);
    assert_eq!(packer[..20].to_vec(), generate_no_pie(&x));
    assert_eq!(packer[20..32].to_vec(), packer_loop_instructions());
    assert_eq!(packer[32..132].to_vec(), woody_instructions(banner));
    // 0x401000 - (0x401000 + 0x100 + 136) = -392
    assert_eq!(i32_at(&packer, 132), -392);
    assert_eq!(&packer[132..], &[0x78, 0xfe, 0xff, 0xff]);
    let e = ehdr(3, 0x1000);
    let x = segment(0x1000, 0x100);
    let packer = generate_packer_with_banner(&e, &x, banner).unwrap();
    assert_eq!(packer.len(), 130);
    // 0x1000 - (0x1000 + 0x100 + 130) = -386
    assert_eq!(i32_at(&packer, 126), -386);
}

#[test]
fn packer_with_the_default_banner_is_generate_packer() {
    let e = ehdr(3, 0x1234);
    let x = segment(0x1000, 0x800);
    assert_eq!(generate_packer_with_banner(&e, &x, &BANNER), generate_packer(&e, &x));
}

#[test]
fn packer_jump_lands_on_the_entry_point() {
    for (e_type, entry, vaddr, memsz) in [
        (2u16, 0x401040u64, 0x401000u64, 0x2345u64),
        (3, 0x1234, 0x1000, 0x800),
        (2, 0x5000_0000, 0x400000, 0x10),
        (3, 0x10, 0x7000_0000, 0x1000),
    ] {
        let packer = generate_packer(&ehdr(e_type, entry), &segment(vaddr, memsz)).unwrap();
        let behind = vaddr + memsz + packer.len() as u64;
        let jump = i32_at(&packer, packer.len() - 4) as i64;
        assert_eq!(packer[packer.len() - 5], 0xe9);
        assert_eq!(behind as i64 + jump, entry as i64);
    }
}

#[test]
fn packer_pie_displacements_point_at_the_segment() {
    let vaddr: u64 = 0x2000;
    let memsz: u64 = 0x4321;
    let packer = generate_packer(&ehdr(3, 0x2100), &segment(vaddr, memsz)).unwrap();
    let stub_addr = (vaddr + memsz) as i64;
    assert_eq!(stub_addr + 7 + i32_at(&packer, 3) as i64, vaddr as i64);
    assert_eq!(stub_addr + 14 + i32_at(&packer, 10) as i64, (vaddr + memsz) as i64);
}

#[test]
fn packer_jump_out_of_range() {
    // forward: entry - behind = 0x7fff_ffff fits, 0x8000_0000 does not
    let x = segment(0x1000, 0x100);
    let behind: u64 = 0x1000 + 0x100 + 106;
    let packer = generate_packer(&ehdr(2, behind + 0x7fff_ffff), &x).unwrap();
    assert_eq!(i32_at(&packer, 102), i32::MAX);
    assert_eq!(generate_packer(&ehdr(2, behind + 0x8000_0000), &x), Err(Error::JumpOutOfRange));
    // backward: -0x8000_0000 fits, one more does not
    let x = segment(0x9000_0000, 0x100);
    let behind: u64 = 0x9000_0000 + 0x100 + 106;
    let packer = generate_packer(&ehdr(2, behind - 0x8000_0000), &x).unwrap();
    assert_eq!(i32_at(&packer, 102), i32::MIN);
    assert_eq!(generate_packer(&ehdr(2, behind - 0x8000_0001), &x), Err(Error::JumpOutOfRange));
}

#[test]
fn packer_pie_segment_too_long() {
    let x = segment(0x1000, 0x7fff_fffa);
    assert_eq!(generate_packer(&ehdr(3, 0x8000_1000), &x), Err(Error::JumpOutOfRange));
    // the same segment at a fixed address is addressed absolutely
    assert!(generate_packer(&ehdr(2, 0x8000_1000), &x).is_ok());
}

#[test]
fn packer_addresses_near_the_top_do_not_overflow() {
    let x = segment(u64::MAX - 0x10, 0x100);
    assert_eq!(generate_packer(&ehdr(2, 0x401000), &x), Err(Error::JumpOutOfRange));
    let x = segment(u64::MAX - 0x200, 0x100);
    let packer = generate_packer(&ehdr(2, u64::MAX - 0x180), &x).unwrap();
    // entry - (vaddr + memsz + 106) = 0x80 - 0x100 - 106 = -234
    assert_eq!(i32_at(&packer, 102), -234);
}
