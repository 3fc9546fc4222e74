use woody_woodpacker::elf::{bound_check, check_end, check_table, fetch_headers, is_exec_segment};
use woody_woodpacker::elf::{read_ehdr, read_phdr, read_shdr, validate_elf_header};
use woody_woodpacker::store::store_headers;
use woody_woodpacker::elf::{Ehdr, Error, Phdr, Shdr};
use woody_woodpacker::elf::{ELFCLASS64, ELFDATA2LSB, ELF_MAGIC, EM_X86_64, ET_DYN, ET_EXEC};
use woody_woodpacker::elf::{EHDR_SIZE, PF_R, PF_W, PF_X, PHDR_SIZE, PT_LOAD, SHDR_SIZE, SHT_PROGBITS};

fn put16(buf: &mut [u8], at: usize, v: u16) {
    buf[at..at + 2].copy_from_slice(&v.to_le_bytes());
}

fn put32(buf: &mut [u8], at: usize, v: u32) {
    buf[at..at + 4].copy_from_slice(&v.to_le_bytes());
}

fn put64(buf: &mut [u8], at: usize, v: u64) {
    buf[at..at + 8].copy_from_slice(&v.to_le_bytes());
}

fn good_ehdr() -> Ehdr {
    Ehdr {
        e_magic: ELF_MAGIC,
        e_class: ELFCLASS64,
        e_data: ELFDATA2LSB,
        e_type: ET_EXEC,
        e_machine: EM_X86_64,
        e_entry: 0x401000,
        e_phoff: 64,
        e_shoff: 0,
        e_phentsize: 56,
        e_phnum: 1,
        e_shentsize: 64,
        e_shnum: 0,
    }
}

/// An image of `len` patterned bytes with a valid file header, `phnum`
/// program headers at offset 64 and `shnum` section headers at `shoff`.
fn image(len: usize, phnum: u16, shoff: u64, shnum: u16) -> Vec<u8> {
    let mut buf: Vec<u8> = (0..len).map(|i| (i % 251) as u8).collect();
    buf[0..4].copy_from_slice(&[0x7f, b'E', b'L', b'F']);
    buf[4] = 2;
    buf[5] = 1;
    put16(&mut buf, 16, 2);
    put16(&mut buf, 18, 62);
    put64(&mut buf, 24, 0x401000);
    put64(&mut buf, 32, 64);
    put64(&mut buf, 40, shoff);
    put16(&mut buf, 54, 56);
    put16(&mut buf, 56, phnum);
    put16(&mut buf, 58, 64);
    put16(&mut buf, 60, shnum);
    buf
}

fn put_phdr(buf: &mut [u8], at: usize, p: &Phdr) {
    put32(buf, at, p.p_type);
    put32(buf, at + 4, p.p_flags);
    put64(buf, at + 8, p.p_offset);
    put64(buf, at + 16, p.p_vaddr);
    put64(buf, at + 32, p.p_filesz);
    put64(buf, at + 40, p.p_memsz);
}

fn put_shdr(buf: &mut [u8], at: usize, s: &Shdr) {
    put32(buf, at + 4, s.sh_type);
    put64(buf, at + 24, s.sh_offset);
    put64(buf, at + 32, s.sh_size);
}

#[test]
fn header_sizes_and_constants() {
    assert_eq!(EHDR_SIZE, 64);
    assert_eq!(PHDR_SIZE, 56);
    assert_eq!(SHDR_SIZE, 64);
    assert_eq!(ELF_MAGIC.to_le_bytes(), [0x7f, b'E', b'L', b'F']);
    assert_eq!((ELFCLASS64, ELFDATA2LSB), (2, 1));
    assert_eq!((ET_EXEC, ET_DYN, EM_X86_64), (2, 3, 62));
    assert_eq!((PT_LOAD, PF_X, PF_W, PF_R), (1, 1, 2, 4));
    assert_eq!(SHT_PROGBITS, 1);
}

#[test]
fn bound_check_accepts_up_to_max() {
    assert_eq!(bound_check(0, 0), Ok(()));
    assert_eq!(bound_check(10, 10), Ok(()));
    assert_eq!(bound_check(9, 10), Ok(()));
}

#[test]
fn bound_check_reports_the_offset() {
    assert_eq!(bound_check(11, 10), Err(Error::InvalidOffset(11)));
    assert_eq!(bound_check(usize::MAX, 0), Err(Error::InvalidOffset(usize::MAX)));
}

#[test]
fn check_end_clamps_what_no_usize_holds() {
    assert_eq!(check_end(100, 100), Ok(()));
    assert_eq!(check_end(101, 100), Err(Error::InvalidOffset(101)));
    assert_eq!(
        check_end(u64::MAX as u128 + 7, 100),
        Err(Error::InvalidOffset(usize::MAX))
    );
}

#[test]
fn check_table_uses_declared_then_native_size() {
    // declared: 64 + 56 * 2 = 176
    assert_eq!(check_table(64, 56, 2, 56, 176), Ok(()));
    assert_eq!(check_table(64, 56, 2, 56, 175), Err(Error::InvalidOffset(176)));
    // declared entries larger than they are read
    assert_eq!(check_table(64, 100, 2, 56, 263), Err(Error::InvalidOffset(264)));
    assert_eq!(check_table(64, 100, 2, 56, 264), Ok(()));
    // declared entries smaller than they are read: 64 + 56 * 2 = 176 is what counts
    assert_eq!(check_table(64, 8, 2, 56, 100), Err(Error::InvalidOffset(176)));
    assert_eq!(check_table(64, 8, 2, 56, 70), Err(Error::InvalidOffset(80)));
    // an empty table lies anywhere up to the end
    assert_eq!(check_table(50, 56, 0, 56, 50), Ok(()));
    assert_eq!(check_table(51, 56, 0, 56, 50), Err(Error::InvalidOffset(51)));
    // no overflow at the top of the range
    assert_eq!(
        check_table(u64::MAX, 0xffff, 0xffff, 56, 1000),
        Err(Error::InvalidOffset(usize::MAX))
    );
}

#[test]
fn is_exec_segment_wants_load_and_execute_bit() {
    let mut p = Phdr { p_type: PT_LOAD, p_flags: PF_X, p_offset: 0, p_vaddr: 0, p_filesz: 0, p_memsz: 0 };
    assert!(is_exec_segment(&p));
    p.p_flags = PF_R | PF_X;
    assert!(is_exec_segment(&p));
    p.p_flags = PF_R | PF_W | PF_X;
    assert!(is_exec_segment(&p));
    p.p_flags = PF_R;
    assert!(!is_exec_segment(&p));
    p.p_flags = PF_R | PF_W;
    assert!(!is_exec_segment(&p));
    p.p_flags = 0;
    assert!(!is_exec_segment(&p));
    p.p_flags = PF_R | PF_X;
    p.p_type = 2;
    assert!(!is_exec_segment(&p));
    p.p_type = 0;
    assert!(!is_exec_segment(&p));
}

#[test]
fn validate_accepts_both_kinds_of_executable() {
    let mut e = good_ehdr();
    assert_eq!(validate_elf_header(&e), Ok(()));
    e.e_type = ET_DYN;
    assert_eq!(validate_elf_header(&e), Ok(()));
}

#[test]
fn validate_reports_each_failure() {
    let mut e = good_ehdr();
    e.e_magic = 0;
    assert_eq!(validate_elf_header(&e), Err(Error::NotAnElf));
    let mut e = good_ehdr();
    e.e_class = 1;
    assert_eq!(validate_elf_header(&e), Err(Error::InvalidClass));
    let mut e = good_ehdr();
    e.e_data = 2;
    assert_eq!(validate_elf_header(&e), Err(Error::InvalidEndianness));
    let mut e = good_ehdr();
    e.e_type = 1;
    assert_eq!(validate_elf_header(&e), Err(Error::InvalidType));
    let mut e = good_ehdr();
    e.e_type = 4;
    assert_eq!(validate_elf_header(&e), Err(Error::InvalidType));
    let mut e = good_ehdr();
    e.e_entry = 0;
    assert_eq!(validate_elf_header(&e), Err(Error::InvalidType));
    let mut e = good_ehdr();
    e.e_machine = 3;
    assert_eq!(validate_elf_header(&e), Err(Error::InvalidArchitecture));
}

#[test]
fn validate_reports_the_first_failure() {
    let mut e = good_ehdr();
    e.e_machine = 3;
    e.e_entry = 0;
    assert_eq!(validate_elf_header(&e), Err(Error::InvalidType));
    e.e_data = 0;
    assert_eq!(validate_elf_header(&e), Err(Error::InvalidEndianness));
    e.e_class = 0;
    assert_eq!(validate_elf_header(&e), Err(Error::InvalidClass));
    e.e_magic = 0x464c_457e;
    assert_eq!(validate_elf_header(&e), Err(Error::NotAnElf));
}

#[test]
fn read_ehdr_takes_each_field_from_its_place() {
    let mut buf = vec![0u8; 64];
    buf[0..4].copy_from_slice(&[0x7f, b'E', b'L', b'F']);
    buf[4] = 2;
    buf[5] = 1;
    put16(&mut buf, 16, 3);
    put16(&mut buf, 18, 62);
    put32(&mut buf, 20, 0xaaaa_aaaa);
    put64(&mut buf, 24, 0x1122_3344_5566_7788);
    put64(&mut buf, 32, 0x40);
    put64(&mut buf, 40, 0x9988_7766_5544_3322);
    put32(&mut buf, 48, 0xbbbb_bbbb);
    put16(&mut buf, 52, 64);
    put16(&mut buf, 54, 56);
    put16(&mut buf, 56, 13);
    put16(&mut buf, 58, 64);
    put16(&mut buf, 60, 31);
    put16(&mut buf, 62, 30);
    assert_eq!(
        read_ehdr(&buf),
        Ehdr {
            e_magic: 0x464c_457f,
            e_class: 2,
            e_data: 1,
            e_type: 3,
            e_machine: 62,
            e_entry: 0x1122_3344_5566_7788,
            e_phoff: 0x40,
            e_shoff: 0x9988_7766_5544_3322,
            e_phentsize: 56,
            e_phnum: 13,
            e_shentsize: 64,
            e_shnum: 31,
        }
    );
}

#[test]
fn read_phdr_and_shdr_take_each_field_from_its_place() {
    let mut buf = vec![0xccu8; 200];
    put32(&mut buf, 10, 1);
    put32(&mut buf, 14, 5);
    put64(&mut buf, 18, 0x1000);
    put64(&mut buf, 26, 0x401000);
    put64(&mut buf, 34, 0xdddd_dddd_dddd_dddd);
    put64(&mut buf, 42, 0x100);
    put64(&mut buf, 50, 0x200);
    put64(&mut buf, 58, 0x1000);
    assert_eq!(
        read_phdr(&buf, 10),
        Phdr { p_type: 1, p_flags: 5, p_offset: 0x1000, p_vaddr: 0x401000, p_filesz: 0x100, p_memsz: 0x200 }
    );
    let mut buf = vec![0xccu8; 200];
    put32(&mut buf, 100, 27);
    put32(&mut buf, 104, 1);
    put64(&mut buf, 124, 0x2000);
    put64(&mut buf, 132, 0x345);
    assert_eq!(read_shdr(&buf, 100), Shdr { sh_type: 1, sh_offset: 0x2000, sh_size: 0x345 });
}

#[test]
fn fetch_headers_reads_both_tables_in_order() {
    let mut buf = image(1000, 2, 600, 3);
    let read_only = Phdr { p_type: 1, p_flags: 4, p_offset: 0, p_vaddr: 0x400000, p_filesz: 0x200, p_memsz: 0x200 };
    let executable = Phdr { p_type: 1, p_flags: 5, p_offset: 0x200, p_vaddr: 0x401000, p_filesz: 0x100, p_memsz: 0x100 };
    put_phdr(&mut buf, 64, &read_only);
    put_phdr(&mut buf, 120, &executable);
    let null_section = Shdr { sh_type: 0, sh_offset: 0, sh_size: 0 };
    let text_section = Shdr { sh_type: 1, sh_offset: 0x200, sh_size: 0x100 };
    let strings_section = Shdr { sh_type: 3, sh_offset: 0x300, sh_size: 0x20 };
    put_shdr(&mut buf, 600, &null_section);
    put_shdr(&mut buf, 664, &text_section);
    put_shdr(&mut buf, 728, &strings_section);
    let (ehdr, phdrtab, shdrtab) = fetch_headers(&buf).unwrap();
    assert_eq!(ehdr, Ehdr { e_phnum: 2, e_shoff: 600, e_shnum: 3, ..good_ehdr() });
    assert_eq!(phdrtab, vec![read_only, executable]);
    assert_eq!(shdrtab, vec![null_section, text_section, strings_section]);
}

#[test]
fn fetch_headers_accepts_tables_that_end_with_the_image() {
    let buf = image(64 + 56 + 64, 1, 120, 1);
    let (_, phdrtab, shdrtab) = fetch_headers(&buf).unwrap();
    assert_eq!(phdrtab.len(), 1);
    assert_eq!(shdrtab.len(), 1);
    let buf = image(64, 0, 64, 0);
    let (_, phdrtab, shdrtab) = fetch_headers(&buf).unwrap();
    assert!(phdrtab.is_empty());
    assert!(shdrtab.is_empty());
}

#[test]
fn fetch_headers_refuses_a_short_image() {
    assert_eq!(fetch_headers(&[]), Err(Error::NotAnElf));
    let buf = image(64, 0, 0, 0);
    assert_eq!(fetch_headers(&buf[..63]), Err(Error::NotAnElf));
    assert!(fetch_headers(&buf).is_ok());
}

#[test]
fn wrong_magic() {
    let mut buf = image(4096, 1, 0, 0);
    buf[0..4].copy_from_slice(&[0, 0, 0, 0]);
    assert_eq!(fetch_headers(&buf), Err(Error::NotAnElf));
}

#[test]
fn fetch_headers_reports_each_header_failure() {
    let mut buf = image(4096, 1, 0, 0);
    buf[4] = 1;
    assert_eq!(fetch_headers(&buf), Err(Error::InvalidClass));
    let mut buf = image(4096, 1, 0, 0);
    buf[5] = 2;
    assert_eq!(fetch_headers(&buf), Err(Error::InvalidEndianness));
    let mut buf = image(4096, 1, 0, 0);
    put16(&mut buf, 16, 1);
    assert_eq!(fetch_headers(&buf), Err(Error::InvalidType));
    let mut buf = image(4096, 1, 0, 0);
    put64(&mut buf, 24, 0);
    assert_eq!(fetch_headers(&buf), Err(Error::InvalidType));
    let mut buf = image(4096, 1, 0, 0);
    put16(&mut buf, 18, 0xb7);
    assert_eq!(fetch_headers(&buf), Err(Error::InvalidArchitecture));
}

#[test]
fn truncated_file() {
    // e_phoff + e_phentsize * e_phnum = 64 + 56 * 4 = 288 > 200
    let buf = image(200, 4, 0, 0);
    assert_eq!(fetch_headers(&buf), Err(Error::InvalidOffset(288)));
}

#[test]
fn fetch_headers_checks_the_program_table_before_the_section_table() {
    let buf = image(200, 4, 150, 2);
    assert_eq!(fetch_headers(&buf), Err(Error::InvalidOffset(288)));
    // e_shoff + e_shentsize * e_shnum = 150 + 64 * 2 = 278 > 200
    let buf = image(200, 1, 150, 2);
    assert_eq!(fetch_headers(&buf), Err(Error::InvalidOffset(278)));
}

#[test]
fn fetch_headers_checks_the_header_before_the_tables() {
    let mut buf = image(200, 4, 0, 0);
    put16(&mut buf, 18, 3);
    assert_eq!(fetch_headers(&buf), Err(Error::InvalidArchitecture));
}

#[test]
fn fetch_headers_refuses_entries_that_it_could_not_read() {
    // declared entries of 8 bytes fit, entries of 56 bytes do not
    let mut buf = image(150, 2, 0, 0);
    put16(&mut buf, 54, 8);
    assert_eq!(fetch_headers(&buf), Err(Error::InvalidOffset(176)));
    let mut buf = image(150, 0, 100, 1);
    put16(&mut buf, 58, 0);
    assert_eq!(fetch_headers(&buf), Err(Error::InvalidOffset(164)));
}

#[test]
fn fetch_headers_refuses_an_offset_at_the_top_of_the_range() {
    let mut buf = image(4096, 1, 0, 0);
    put64(&mut buf, 32, u64::MAX);
    assert_eq!(fetch_headers(&buf), Err(Error::InvalidOffset(usize::MAX)));
}

#[test]
fn store_headers_writes_the_rewritable_fields_only() {
    let plain = image(1000, 2, 600, 2);
    let mut buf = plain.clone();
    let (mut ehdr, mut phdrtab, mut shdrtab) = fetch_headers(&buf).unwrap();
    ehdr.e_entry = 0x1111_2222_3333_4444;
    ehdr.e_phoff = 0x5555;
    ehdr.e_shoff = 0x6666;
    phdrtab[1].p_flags = 7;
    phdrtab[1].p_offset = 0x7777;
    phdrtab[1].p_filesz = 0x8888;
    phdrtab[1].p_memsz = 0x9999;
    shdrtab[0].sh_offset = 0xaaaa;
    shdrtab[0].sh_size = 0xbbbb;
    store_headers(&mut buf, 64, 600, &ehdr, &phdrtab, &shdrtab);

    let mut want = plain.clone();
    put64(&mut want, 24, 0x1111_2222_3333_4444);
    put64(&mut want, 32, 0x5555);
    put64(&mut want, 40, 0x6666);
    put32(&mut want, 120 + 4, 7);
    put64(&mut want, 120 + 8, 0x7777);
    put64(&mut want, 120 + 32, 0x8888);
    put64(&mut want, 120 + 40, 0x9999);
    put64(&mut want, 600 + 24, 0xaaaa);
    put64(&mut want, 600 + 32, 0xbbbb);
    assert_eq!(buf, want);
}

#[test]
fn store_headers_of_what_was_read_changes_nothing() {
    let plain = image(1000, 3, 700, 4);
    let mut buf = plain.clone();
    let (ehdr, phdrtab, shdrtab) = fetch_headers(&buf).unwrap();
    store_headers(&mut buf, 64, 700, &ehdr, &phdrtab, &shdrtab);
    assert_eq!(buf, plain);
}

#[test]
fn store_then_read_gives_the_headers_back() {
    let mut buf = image(1000, 2, 600, 2);
    let (mut ehdr, mut phdrtab, mut shdrtab) = fetch_headers(&buf).unwrap();
    ehdr.e_entry = u64::MAX;
    phdrtab[0].p_offset = 0x0123_4567_89ab_cdef;
    phdrtab[0].p_flags = 0xffff_ffff;
    shdrtab[1].sh_size = 0xfedc_ba98_7654_3210;
    store_headers(&mut buf, 64, 600, &ehdr, &phdrtab, &shdrtab);
    assert_eq!(fetch_headers(&buf), Ok((ehdr, phdrtab, shdrtab)));
}
