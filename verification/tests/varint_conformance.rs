use std::io::Cursor;
use tile_directory::varint::{read_varint_u64, write_varint_u64};
use varint_rs::{VarintReader, VarintWriter};

#[test]
fn varint_wire_form_matches_reference_writer() {
    let values: [u64; 9] = [0, 1, 127, 128, 300, 16_383, 16_384, 1 << 35, u64::MAX];
    for &v in values.iter() {
        let mut ours: Vec<u8> = Vec::new();
        write_varint_u64(&mut ours, v);
        let mut reference: Vec<u8> = Vec::new();
        reference.write_u64_varint(v).unwrap();
        assert_eq!(ours, reference);
    }
}

#[test]
fn varint_reader_agrees_with_reference() {
    let values: [u64; 6] = [0, 5, 128, 300, 1 << 35, u64::MAX];
    let mut buf: Vec<u8> = Vec::new();
    for &v in values.iter() {
        write_varint_u64(&mut buf, v);
    }
    let mut pos = 0usize;
    let mut cursor = Cursor::new(buf.clone());
    for &v in values.iter() {
        let (got, next) = read_varint_u64(&buf, pos).unwrap();
        assert_eq!(got, v);
        pos = next;
        assert_eq!(cursor.read_u64_varint().unwrap(), v);
    }
    assert_eq!(pos, buf.len());
}

#[test]
fn varint_reader_rejects_truncation_and_overflow() {
    // unterminated
    assert!(read_varint_u64(&[0x80, 0x80], 0).is_none());
    // eleven continuation bytes never fit
    assert!(read_varint_u64(&[0x80; 11], 0).is_none());
    // 1 << 64 is one past the top
    assert!(
        read_varint_u64(&[0x80, 0x80, 0x80, 0x80, 0x80, 0x80, 0x80, 0x80, 0x80, 0x02], 0)
            .is_none()
    );
    // u64::MAX itself still reads
    let mut buf: Vec<u8> = Vec::new();
    buf.write_u64_varint(u64::MAX).unwrap();
    assert_eq!(read_varint_u64(&buf, 0).unwrap().0, u64::MAX);
}
