use woody_woodpacker::elf::{Ehdr, Phdr, Shdr};
use woody_woodpacker::rewrite::{find_exec_segment, is_section_in_segment, rewrite_headers};
use woody_woodpacker::rewrite::{update_offset, Insertion};

fn ehdr(e_phoff: u64, e_shoff: u64) -> Ehdr {
    Ehdr {
        e_magic: 0x464c_457f,
        e_class: 2,
        e_data: 1,
        e_type: 2,
        e_machine: 62,
        e_entry: 0x401040,
        e_phoff,
        e_shoff,
        e_phentsize: 56,
        e_phnum: 3,
        e_shentsize: 64,
        e_shnum: 4,
    }
}

fn load(flags: u32, offset: u64, vaddr: u64, size: u64) -> Phdr {
    Phdr { p_type: 1, p_flags: flags, p_offset: offset, p_vaddr: vaddr, p_filesz: size, p_memsz: size }
}

#[test]
fn find_exec_segment_takes_the_first() {
    let table = vec![
        load(4, 0, 0x400000, 0x200),
        load(5, 0x1000, 0x401000, 0x100),
        load(6, 0x2000, 0x402000, 0x100),
        load(5, 0x3000, 0x403000, 0x100),
    ];
    assert_eq!(find_exec_segment(&table), Some(1));
    assert_eq!(find_exec_segment(&table[1..].to_vec()), Some(0));
    assert_eq!(find_exec_segment(&table[2..].to_vec()), Some(1));
}

#[test]
fn find_exec_segment_finds_none() {
    assert_eq!(find_exec_segment(&Vec::new()), None);
    let table = vec![load(4, 0, 0x400000, 0x200), load(6, 0x2000, 0x402000, 0x100)];
    assert_eq!(find_exec_segment(&table), None);
    // executable, but not loadable
    let table = vec![Phdr { p_type: 6, ..load(5, 0x40, 0x400040, 0x100) }];
    assert_eq!(find_exec_segment(&table), None);
}

#[test]
fn update_offset_shifts_from_the_insertion_on() {
    assert_eq!(update_offset(0x10ff, 0x1100, 0x1000), 0x10ff);
    assert_eq!(update_offset(0x1100, 0x1100, 0x1000), 0x2100);
    assert_eq!(update_offset(0x1101, 0x1100, 0x1000), 0x2101);
    assert_eq!(update_offset(0, 0x1100, 0x1000), 0);
    assert_eq!(update_offset(0, 0, 0x1000), 0x1000);
    assert_eq!(update_offset(u64::MAX, 0x1100, 0x1000), 0xfff);
}

#[test]
fn section_in_segment_wants_both_ends_inside() {
    let seg = load(5, 0x1000, 0x401000, 0x1100);
    assert!(is_section_in_segment(0x1000, 0x1100, &seg));
    assert!(is_section_in_segment(0x1000, 0, &seg));
    assert!(is_section_in_segment(0x2100, 0, &seg));
    assert!(is_section_in_segment(0x1800, 0x100, &seg));
    assert!(!is_section_in_segment(0xfff, 0x10, &seg));
    assert!(!is_section_in_segment(0x1000, 0x1101, &seg));
    assert!(!is_section_in_segment(0x2100, 1, &seg));
    assert!(!is_section_in_segment(0x3000, 0x10, &seg));
    assert!(!is_section_in_segment(0x1800, u64::MAX, &seg));
}

#[test]
fn rewrite_moves_entry_grows_segment_and_shifts_offsets() {
    let mut e = ehdr(64, 0x3000);
    let mut phdrtab = vec![
        load(4, 0, 0x400000, 0x200),
        load(5, 0x1000, 0x401000, 0x100),
        load(6, 0x2000, 0x402000, 0x80),
    ];
    let mut shdrtab = vec![
        Shdr { sh_type: 0, sh_offset: 0, sh_size: 0 },
        Shdr { sh_type: 1, sh_offset: 0x1000, sh_size: 0x100 },
        Shdr { sh_type: 1, sh_offset: 0x2000, sh_size: 0x80 },
        Shdr { sh_type: 3, sh_offset: 0x2080, sh_size: 0x20 },
    ];
    let ins = rewrite_headers(&mut e, &mut phdrtab, &mut shdrtab, 1, 0x1000);
    assert_eq!(ins, Insertion { cipher_off: 0x1000, cipher_len: 0x100, insert_off: 0x1100 });
    assert_eq!(e, Ehdr { e_entry: 0x401100, e_phoff: 64, e_shoff: 0x4000, ..ehdr(64, 0x3000) });
    assert_eq!(
        phdrtab,
        vec![
            load(4, 0, 0x400000, 0x200),
            load(7, 0x1000, 0x401000, 0x1100),
            load(6, 0x3000, 0x402000, 0x80),
        ]
    );
    assert_eq!(
        shdrtab,
        vec![
            Shdr { sh_type: 0, sh_offset: 0, sh_size: 0 },
            Shdr { sh_type: 1, sh_offset: 0x1000, sh_size: 0x1100 },
            Shdr { sh_type: 1, sh_offset: 0x3000, sh_size: 0x80 },
            Shdr { sh_type: 3, sh_offset: 0x3080, sh_size: 0x20 },
        ]
    );
}

#[test]
fn rewrite_grows_only_program_data_inside_the_segment() {
    let mut e = ehdr(64, 0x3000);
    let mut phdrtab = vec![load(5, 0x1000, 0x401000, 0x100)];
    let mut shdrtab = vec![
        // inside, but not program data
        Shdr { sh_type: 8, sh_offset: 0x1000, sh_size: 0x100 },
        // program data before the segment
        Shdr { sh_type: 1, sh_offset: 0x800, sh_size: 0x100 },
        // program data that starts before the segment
        Shdr { sh_type: 1, sh_offset: 0xfff, sh_size: 0x10 },
        // program data in the middle of the segment
        Shdr { sh_type: 1, sh_offset: 0x1010, sh_size: 0x20 },
        // program data that runs over the old end, into the new page
        Shdr { sh_type: 1, sh_offset: 0x10f0, sh_size: 0x20 },
        // program data that would run over the new end
        Shdr { sh_type: 1, sh_offset: 0x10f0, sh_size: 0x1011 },
        // program data right behind the segment
        Shdr { sh_type: 1, sh_offset: 0x1101, sh_size: 0x10 },
    ];
    rewrite_headers(&mut e, &mut phdrtab, &mut shdrtab, 0, 0x1000);
    assert_eq!(
        shdrtab,
        vec![
            Shdr { sh_type: 8, sh_offset: 0x1000, sh_size: 0x100 },
            Shdr { sh_type: 1, sh_offset: 0x800, sh_size: 0x100 },
            Shdr { sh_type: 1, sh_offset: 0xfff, sh_size: 0x10 },
            Shdr { sh_type: 1, sh_offset: 0x1010, sh_size: 0x1020 },
            Shdr { sh_type: 1, sh_offset: 0x10f0, sh_size: 0x1020 },
            Shdr { sh_type: 1, sh_offset: 0x10f0, sh_size: 0x1011 },
            Shdr { sh_type: 1, sh_offset: 0x2101, sh_size: 0x10 },
        ]
    );
}

#[test]
fn rewrite_shifts_table_offsets_at_the_insertion() {
    let mut e = ehdr(0x1100, 0x10ff);
    let mut phdrtab = vec![load(5, 0x1000, 0x401000, 0x100)];
    let mut shdrtab = Vec::new();
    rewrite_headers(&mut e, &mut phdrtab, &mut shdrtab, 0, 0x1000);
    assert_eq!(e.e_phoff, 0x2100);
    assert_eq!(e.e_shoff, 0x10ff);
}

#[test]
fn rewrite_uses_file_size_for_the_entry() {
    let mut e = ehdr(64, 0);
    let mut phdrtab = vec![Phdr { p_memsz: 0x300, ..load(5, 0x1000, 0x401000, 0x100) }];
    let mut shdrtab = Vec::new();
    let ins = rewrite_headers(&mut e, &mut phdrtab, &mut shdrtab, 0, 0x1000);
    assert_eq!(e.e_entry, 0x401100);
    assert_eq!(phdrtab[0].p_filesz, 0x1100);
    assert_eq!(phdrtab[0].p_memsz, 0x1300);
    assert_eq!(ins.insert_off, 0x1100);
}

#[test]
fn rewrite_of_an_empty_segment_shifts_it_too() {
    let mut e = ehdr(64, 0);
    let mut phdrtab = vec![load(1, 0x1000, 0x401000, 0)];
    let mut shdrtab = Vec::new();
    let ins = rewrite_headers(&mut e, &mut phdrtab, &mut shdrtab, 0, 0x1000);
    assert_eq!(ins, Insertion { cipher_off: 0x1000, cipher_len: 0, insert_off: 0x1000 });
    assert_eq!(phdrtab[0], load(3, 0x2000, 0x401000, 0x1000));
    assert_eq!(e.e_entry, 0x401000);
}

#[test]
fn rewrite_wraps_sums_at_two_to_the_64() {
    let mut e = ehdr(64, 0);
    let mut phdrtab = vec![
        Phdr { p_memsz: u64::MAX, ..load(5, 0x1000, u64::MAX, 0x100) },
        load(4, u64::MAX - 1, 0, 0),
    ];
    let mut shdrtab = vec![Shdr { sh_type: 3, sh_offset: u64::MAX, sh_size: 5 }];
    rewrite_headers(&mut e, &mut phdrtab, &mut shdrtab, 0, 0x1000);
    assert_eq!(e.e_entry, 0xff);
    assert_eq!(phdrtab[0].p_memsz, 0xfff);
    assert_eq!(phdrtab[1].p_offset, 0xffe);
    assert_eq!(shdrtab[0].sh_offset, 0xfff);
}
