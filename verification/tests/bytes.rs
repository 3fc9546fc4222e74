use woody_woodpacker::bytes::{push_u32, push_u64, read_u16, read_u32, read_u64};
use woody_woodpacker::bytes::{write_u32, write_u64};

#[test]
fn reads_are_little_endian() {
    let buf: Vec<u8> = vec![0xaa, 0x01, 0x02, 0x03, 0x04, 0x05, 0x06, 0x07, 0x08, 0xbb];
    assert_eq!(read_u16(&buf, 1), 0x0201);
    assert_eq!(read_u32(&buf, 1), 0x0403_0201);
    assert_eq!(read_u64(&buf, 1), 0x0807_0605_0403_0201);
    assert_eq!(read_u16(&buf, 8), 0xbb08);
}

#[test]
fn reads_agree_with_std() {
    let buf: Vec<u8> = vec![0xff, 0xfe, 0xfd, 0xfc, 0xfb, 0xfa, 0xf9, 0xf8];
    assert_eq!(read_u16(&buf, 0), u16::from_le_bytes([0xff, 0xfe]));
    assert_eq!(read_u32(&buf, 0), u32::from_le_bytes([0xff, 0xfe, 0xfd, 0xfc]));
    assert_eq!(
        read_u64(&buf, 0),
        u64::from_le_bytes([0xff, 0xfe, 0xfd, 0xfc, 0xfb, 0xfa, 0xf9, 0xf8])
    );
}

#[test]
fn writes_are_little_endian_and_keep_the_rest() {
    let mut buf: Vec<u8> = vec![0x11; 12];
    write_u32(&mut buf, 1, 0xdead_beef);
    assert_eq!(&buf[..6], &[0x11, 0xef, 0xbe, 0xad, 0xde, 0x11]);
    write_u64(&mut buf, 4, 0x0102_0304_0506_0708);
    assert_eq!(
        buf,
        vec![0x11, 0xef, 0xbe, 0xad, 0x08, 0x07, 0x06, 0x05, 0x04, 0x03, 0x02, 0x01]
    );
}

#[test]
fn write_then_read_gives_the_value() {
    let mut buf: Vec<u8> = vec![0; 16];
    for v in [0u64, 1, 0xff, 0x100, 0xffff_ffff, 0x1_0000_0000, u64::MAX, 0x8000_0000_0000_0000] {
        write_u64(&mut buf, 3, v);
        assert_eq!(read_u64(&buf, 3), v);
        assert_eq!(buf[3..11].to_vec(), v.to_le_bytes().to_vec());
    }
    for v in [0u32, 1, 0x7fff_ffff, 0x8000_0000, u32::MAX] {
        write_u32(&mut buf, 11, v);
        assert_eq!(read_u32(&buf, 11), v);
        assert_eq!(buf[11..15].to_vec(), v.to_le_bytes().to_vec());
    }
}

#[test]
fn pushes_append_little_endian_bytes() {
    let mut buf: Vec<u8> = vec![0x90];
    push_u32(&mut buf, 0xffff_fef9);
    push_u64(&mut buf, 0x0000_0000_0040_1000);
    assert_eq!(
        buf,
        vec![0x90, 0xf9, 0xfe, 0xff, 0xff, 0x00, 0x10, 0x40, 0x00, 0x00, 0x00, 0x00, 0x00]
    );
}
