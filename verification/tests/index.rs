use git_pack::error::Error;
use git_pack::index::{decode, encode, ObjectId};

fn id(first: u8, rest: u8) -> ObjectId {
    let mut id = [rest; 20];
    id[0] = first;
    id
}

fn hex(bytes: &[u8]) -> String {
    bytes.iter().map(|b| format!("{:02x}", b)).collect()
}

fn u32_at(data: &[u8], at: usize) -> u32 {
    u32::from_be_bytes([data[at], data[at + 1], data[at + 2], data[at + 3]])
}

#[test]
fn an_index_with_large_offsets() {
    let entries = vec![
        (0x10, id(0x00, 0x11), 0xdead_beef),
        (0x8000_0000, id(0x01, 0x22), 0x0102_0304),
        (0x1_0000_0000, id(0xff, 0x33), 7),
    ];
    let pack_hash = [0xab; 20];
    let (data, index_hash) = encode(entries.clone(), &pack_hash).unwrap();
    assert_eq!(data.len(), 8 + 1024 + 3 * 28 + 2 * 8 + 40);
    assert_eq!(&data[..8], &[0xff, b't', b'O', b'c', 0, 0, 0, 2]);
    assert_eq!(u32_at(&data, 8), 1);
    for first in 1..255 {
        assert_eq!(u32_at(&data, 8 + 4 * first), 2);
    }
    assert_eq!(u32_at(&data, 8 + 4 * 255), 3);
    assert_eq!(&data[1032..1052], &id(0x00, 0x11));
    assert_eq!(&data[1052..1072], &id(0x01, 0x22));
    assert_eq!(&data[1072..1092], &id(0xff, 0x33));
    assert_eq!(&data[1092..1104], &[0xde, 0xad, 0xbe, 0xef, 1, 2, 3, 4, 0, 0, 0, 7]);
    assert_eq!(&data[1104..1116], &[0, 0, 0, 0x10, 0x80, 0, 0, 0, 0x80, 0, 0, 1]);
    assert_eq!(&data[1116..1132], &[0, 0, 0, 0, 0x80, 0, 0, 0, 0, 0, 0, 1, 0, 0, 0, 0]);
    assert_eq!(&data[1132..1152], &pack_hash);
    assert_eq!(&data[1152..], &index_hash);
    assert_eq!(hex(&index_hash), "c3eef2d9113cbd4273f9f2ed3311b61b32d92730");
    assert_eq!(sha1_smol::Sha1::from(&data[..1152]).digest().bytes(), index_hash);
}

#[test]
fn an_index_of_one_object() {
    let mut only = [0u8; 20];
    for (i, byte) in only.iter_mut().enumerate() {
        *byte = i as u8;
    }
    let (data, index_hash) = encode(vec![(12, only, 0x0a0b_0c0d)], &[0; 20]).unwrap();
    assert_eq!(data.len(), 1100);
    for first in 0..256 {
        assert_eq!(u32_at(&data, 8 + 4 * first), 1);
    }
    assert_eq!(&data[1052..1060], &[0x0a, 0x0b, 0x0c, 0x0d, 0, 0, 0, 12]);
    assert_eq!(hex(&index_hash), "26ffd0a9c93f8bf3c1a62d49b98551c011b9355c");
}

#[test]
fn what_is_written_is_read_again() {
    let entries = vec![
        (0xffff_ffff_ffff_ffff, id(3, 1), 0),
        (0x7fff_ffff, id(3, 2), u32::MAX),
        (0x8000_0000, id(9, 0), 1),
        (0, id(200, 7), 0x8000_0000),
        (0x1234_5678_9abc_def0, id(200, 8), 2),
    ];
    let pack_hash = id(1, 2);
    let (data, index_hash) = encode(entries.clone(), &pack_hash).unwrap();
    assert_eq!(decode(&data), Some((entries, pack_hash, index_hash)));
}

#[test]
fn the_offset_that_just_fits_is_written_in_place() {
    let (data, _) = encode(vec![(0x7fff_ffff, id(0, 0), 0)], &[0; 20]).unwrap();
    assert_eq!(data.len(), 1100);
    assert_eq!(u32_at(&data, 1056), 0x7fff_ffff);
    let (data, _) = encode(vec![(0x8000_0000, id(0, 0), 0)], &[0; 20]).unwrap();
    assert_eq!(data.len(), 1108);
    assert_eq!(u32_at(&data, 1056), 0x8000_0000);
    assert_eq!(&data[1060..1068], &[0, 0, 0, 0, 0x80, 0, 0, 0]);
}

#[test]
fn the_fan_out_counts_ids_in_any_order() {
    let entries = vec![(1, id(7, 0), 0), (2, id(5, 0), 0), (3, id(7, 1), 0)];
    let (data, _) = encode(entries, &[0; 20]).unwrap();
    assert_eq!(u32_at(&data, 8 + 4 * 4), 0);
    assert_eq!(u32_at(&data, 8 + 4 * 5), 1);
    assert_eq!(u32_at(&data, 8 + 4 * 6), 1);
    assert_eq!(u32_at(&data, 8 + 4 * 7), 3);
    assert_eq!(u32_at(&data, 8 + 4 * 255), 3);
}

#[test]
fn no_index_of_no_objects() {
    assert_eq!(encode(Vec::new(), &[0; 20]), Err(Error::NoObjects));
}

#[test]
fn what_is_no_index_is_not_read() {
    let (data, _) = encode(vec![(1, id(1, 1), 1), (0x8000_0000, id(2, 2), 2)], &[9; 20]).unwrap();
    assert!(decode(&data).is_some());
    assert_eq!(decode(&data[..data.len() - 1]), None);
    assert_eq!(decode(&data[..1071]), None);
    assert_eq!(decode(&[]), None);
    let mut other_version = data.clone();
    other_version[7] = 3;
    assert_eq!(decode(&other_version), None);
    let mut other_signature = data.clone();
    other_signature[0] = 0xfe;
    assert_eq!(decode(&other_signature), None);
    let mut more_declared = data.clone();
    more_declared[1031] = 3;
    assert_eq!(decode(&more_declared), None);
    let mut missing_large_offset = data.clone();
    missing_large_offset[1032 + 2 * 24 + 4 + 3] = 1;
    assert_eq!(decode(&missing_large_offset), None);
    let mut without_large_offset = data[..data.len() - 48].to_vec();
    without_large_offset.extend_from_slice(&[0; 40]);
    assert_eq!(decode(&without_large_offset), None);
}

#[test]
fn an_index_of_no_objects_is_read() {
    let mut data = vec![0xff, b't', b'O', b'c', 0, 0, 0, 2];
    data.extend_from_slice(&[0; 1024]);
    data.extend_from_slice(&[1; 20]);
    data.extend_from_slice(&[2; 20]);
    assert_eq!(decode(&data), Some((Vec::new(), [1; 20], [2; 20])));
}

#[test]
fn the_bytes_of_each_number_come_most_significant_first() {
    let (data, _) = encode(vec![(0x0102_0304_0506_0708, id(0, 0), 0x0a0b_0c0d)], &[0; 20]).unwrap();
    assert_eq!(&data[1052..1056], &[0x0a, 0x0b, 0x0c, 0x0d]);
    assert_eq!(&data[1060..1068], &[1, 2, 3, 4, 5, 6, 7, 8]);
    let mut little = [0u8; 8];
    <byteorder::LittleEndian as byteorder::ByteOrder>::write_u64(&mut little, 0x0102_0304_0506_0708);
    assert_eq!(little, [8, 7, 6, 5, 4, 3, 2, 1]);
    let (entries, _, _) = decode(&data).unwrap();
    assert_eq!(entries, vec![(0x0102_0304_0506_0708, id(0, 0), 0x0a0b_0c0d)]);
}
