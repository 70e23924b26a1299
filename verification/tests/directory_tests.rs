use tile_directory::codec::DirectoryError;
use tile_directory::directory::{DirEntry, Directory, ENTRY_APPROX_BYTES};

fn entry(tile_id: u64, run_length: u32, length: u32, offset: u64) -> DirEntry {
    DirEntry { tile_id, offset, length, run_length }
}

fn scenario() -> Directory {
    Directory::from_entries(vec![
        entry(0, 1, 100, 0),
        entry(1, 0, 50, 100),
        entry(5, 3, 30, 150),
    ])
}

#[test]
fn scenario_lookups() {
    let d = scenario();
    assert!(d.is_well_formed());
    assert_eq!(d.find_tile_id(0).unwrap().tile_id, 0);
    let e1 = d.find_tile_id(1).unwrap();
    assert_eq!(e1.tile_id, 1);
    assert!(e1.is_leaf());
    // leaf deferral: 2 sits past the leaf, before the next entry
    assert_eq!(d.find_tile_id(2).unwrap().tile_id, 1);
    assert_eq!(d.find_tile_id(5).unwrap().tile_id, 5);
    // run containment: 7 - 5 = 2 < 3
    assert_eq!(d.find_tile_id(7).unwrap().tile_id, 5);
    // past the run: 8 - 5 = 3, no entry covers 8
    assert!(d.find_tile_id(8).is_none());
}

#[test]
fn lookup_before_first_and_in_gap() {
    let d = Directory::from_entries(vec![entry(10, 2, 10, 0), entry(20, 0, 10, 10)]);
    assert!(d.find_tile_id(0).is_none());
    assert!(d.find_tile_id(9).is_none());
    assert_eq!(d.find_tile_id(10).unwrap().tile_id, 10);
    assert_eq!(d.find_tile_id(11).unwrap().tile_id, 10);
    // the run [10, 12) has ended, the next entry starts at 20
    assert!(d.find_tile_id(12).is_none());
    assert!(d.find_tile_id(19).is_none());
    // a trailing leaf covers everything onward, however far
    assert_eq!(d.find_tile_id(1_000_000).unwrap().tile_id, 20);
}

#[test]
fn round_trip_exact() {
    let d = scenario();
    assert!(d.is_encodable());
    let bytes = d.to_bytes();
    let back = Directory::try_from_bytes(&bytes).unwrap();
    let a = d.entries();
    let b = back.entries();
    assert_eq!(a.len(), b.len());
    for i in 0..a.len() {
        assert_eq!(a[i].tile_id, b[i].tile_id);
        assert_eq!(a[i].run_length, b[i].run_length);
        assert_eq!(a[i].length, b[i].length);
        assert_eq!(a[i].offset, b[i].offset);
    }
}

#[test]
fn wire_layout_exact() {
    // two entries, the second byte-contiguous with the first
    let d = Directory::from_entries(vec![entry(0, 1, 100, 0), entry(1, 1, 50, 100)]);
    let bytes = d.to_bytes();
    // count; deltas; run lengths; lengths; offset codes (1 = offset 0, 0 = contiguous)
    assert_eq!(bytes, vec![2, 0, 1, 1, 1, 100, 50, 1, 0]);
    let back = Directory::try_from_bytes(&bytes).unwrap();
    assert_eq!(back.entries()[1].offset, 100);
}

#[test]
fn wire_layout_multibyte_varint() {
    let d = Directory::from_entries(vec![entry(300, 1, 1, 5)]);
    let bytes = d.to_bytes();
    // 300 = 0xAC 0x02 in base-128; offset 5 is written as 6
    assert_eq!(bytes, vec![1, 0xAC, 0x02, 1, 1, 6]);
    let back = Directory::try_from_bytes(&bytes).unwrap();
    assert_eq!(back.entries()[0].tile_id, 300);
    assert_eq!(back.entries()[0].offset, 5);
}

#[test]
fn sentinel_restores_offset() {
    // the middle entry is byte-contiguous with its predecessor (40 + 7 = 47)
    let d = Directory::from_entries(vec![
        entry(3, 2, 7, 40),
        entry(9, 1, 11, 47),
        entry(12, 1, 1, 100),
    ]);
    let bytes = d.to_bytes();
    // offset pass: 41 (= 40 + 1), sentinel 0, 101 (= 100 + 1)
    assert_eq!(&bytes[bytes.len() - 3..], &[41, 0, 101]);
    let back = Directory::try_from_bytes(&bytes).unwrap();
    assert_eq!(back.entries()[1].offset, 47);
}

#[test]
fn decode_rejects_truncation() {
    assert_eq!(Directory::try_from_bytes(&[]).unwrap_err(), DirectoryError::Malformed);
    // the count says two entries, but the stream ends inside the passes
    assert_eq!(Directory::try_from_bytes(&[2, 0]).unwrap_err(), DirectoryError::Malformed);
    // an unterminated varint
    assert_eq!(Directory::try_from_bytes(&[0x80]).unwrap_err(), DirectoryError::Malformed);
}

#[test]
fn decode_rejects_first_offset_sentinel() {
    // one entry whose offset claims contiguity with a missing predecessor
    assert_eq!(
        Directory::try_from_bytes(&[1, 0, 0, 0, 0]).unwrap_err(),
        DirectoryError::InvalidEntry
    );
}

#[test]
fn decode_rejects_oversized_run_length() {
    // a run length of 1 << 32 does not fit its 32-bit field
    let bytes = [1, 0, 0x80, 0x80, 0x80, 0x80, 0x10, 0, 1];
    assert_eq!(Directory::try_from_bytes(&bytes).unwrap_err(), DirectoryError::Malformed);
}

#[test]
fn decode_ignores_trailing_bytes() {
    let d = scenario();
    let mut bytes = d.to_bytes();
    bytes.extend_from_slice(&[0, 0, 0, 0]);
    let back = Directory::try_from_bytes(&bytes).unwrap();
    assert_eq!(back.entries().len(), 3);
}

#[test]
fn empty_directory_round_trip() {
    let d = Directory::with_capacity(4);
    let bytes = d.to_bytes();
    assert_eq!(bytes, vec![0]);
    assert_eq!(Directory::try_from_bytes(&bytes).unwrap().entries().len(), 0);
    assert!(d.find_tile_id(0).is_none());
}

#[test]
fn push_builds_in_order() {
    let mut d = Directory::with_capacity(2);
    d.push(entry(1, 1, 10, 0));
    d.push(entry(2, 1, 10, 10));
    assert!(d.is_well_formed());
    assert_eq!(d.entries().len(), 2);
    assert_eq!(d.find_tile_id(2).unwrap().offset, 10);
}

#[test]
fn well_formedness_detects_violations() {
    // duplicate identifier
    assert!(!Directory::from_entries(vec![entry(1, 1, 1, 0), entry(1, 1, 1, 1)]).is_well_formed());
    // run overlapping the next entry
    assert!(!Directory::from_entries(vec![entry(1, 5, 1, 0), entry(3, 1, 1, 1)]).is_well_formed());
    // descending identifiers
    assert!(!Directory::from_entries(vec![entry(5, 1, 1, 0), entry(3, 1, 1, 1)]).is_well_formed());
    assert!(Directory::from_entries(vec![]).is_well_formed());
}

#[test]
fn write_directory() {
    // a directory shaped like a small raster root: mostly single tiles, one
    // longer run, byte-contiguous payloads
    let mut entries = Vec::new();
    let mut offset = 0u64;
    for i in 0..84u64 {
        let run_length = if i == 58 { 2 } else { 1 };
        let length = 100 + (i as u32 % 7) * 10;
        entries.push(DirEntry { tile_id: i * 2, offset, length, run_length });
        offset += length as u64;
    }
    let root_dir = Directory::from_entries(entries);
    let buf = root_dir.to_bytes();
    let dir = Directory::try_from_bytes(&buf).unwrap();
    assert!(root_dir
        .entries()
        .iter()
        .enumerate()
        .all(|(idx, entry)| dir.entries()[idx].tile_id == entry.tile_id
            && dir.entries()[idx].run_length == entry.run_length
            && dir.entries()[idx].offset == entry.offset
            && dir.entries()[idx].length == entry.length));
}

#[test]
fn approx_byte_size_covers_entries() {
    let d = scenario();
    assert!(d.get_approx_byte_size() >= 3 * ENTRY_APPROX_BYTES);
}
