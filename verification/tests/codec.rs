use ofc::codec::{
    decode_header, decode_single_entry, encode_header, encode_offset_table, ENTRY_LEN,
    HEADER_LEN, MAGIC,
};
use ofc::error::Error;
use ofc::le::{push_u32_le, push_u64_le, u32_from_le, u64_from_le};
use ofc::order::{common_prefix_len, name_less, sort_order};

#[test]
fn magic_is_ofc_and_a_zero_byte() {
    assert_eq!(&MAGIC, b"ofc\0");
    assert_eq!(HEADER_LEN, 8);
    assert_eq!(ENTRY_LEN, 8);
}

#[test]
fn header_is_magic_then_count() {
    assert_eq!(encode_header(0), b"ofc\0\0\0\0\0".to_vec());
    assert_eq!(encode_header(2), b"ofc\0\x02\0\0\0".to_vec());
    assert_eq!(
        encode_header(0x1234_5678),
        b"ofc\0\x78\x56\x34\x12".to_vec()
    );
    assert_eq!(encode_header(u32::MAX), b"ofc\0\xff\xff\xff\xff".to_vec());
}

#[test]
fn header_decodes_to_its_count() {
    for count in [0u32, 1, 2, 255, 256, 65_535, 65_536, 0x1234_5678, u32::MAX] {
        assert_eq!(decode_header(&encode_header(count)), Ok(count));
    }
    // only the first eight bytes matter
    assert_eq!(decode_header(b"ofc\0\x03\0\0\0trailing"), Ok(3));
}

#[test]
fn header_errors() {
    assert_eq!(decode_header(b""), Err(Error::IoFailure));
    assert_eq!(decode_header(b"ofc"), Err(Error::IoFailure));
    assert_eq!(decode_header(b"ofc\0"), Err(Error::IoFailure));
    assert_eq!(decode_header(b"ofc\0\x01\0\0"), Err(Error::IoFailure));
    assert_eq!(decode_header(b"ofd\0"), Err(Error::InvalidFormat));
    assert_eq!(decode_header(b"ofc\x01\0\0\0\0"), Err(Error::InvalidFormat));
    assert_eq!(decode_header(b"\0cfo\x01\0\0\0"), Err(Error::InvalidFormat));
    assert_eq!(decode_header(b"xfc\0\x01\0\0\0"), Err(Error::InvalidFormat));
    assert_eq!(decode_header(b"oxc\0\x01\0\0\0"), Err(Error::InvalidFormat));
}

#[test]
fn offset_table_is_little_endian() {
    assert_eq!(encode_offset_table(&[]), Vec::<u8>::new());
    assert_eq!(
        encode_offset_table(&[1, 3]),
        vec![1, 0, 0, 0, 0, 0, 0, 0, 3, 0, 0, 0, 0, 0, 0, 0]
    );
    assert_eq!(
        encode_offset_table(&[0x0102_0304_0506_0708, u64::MAX]),
        vec![8, 7, 6, 5, 4, 3, 2, 1, 255, 255, 255, 255, 255, 255, 255, 255]
    );
}

#[test]
fn single_entry_is_read_at_eight_times_its_index() {
    let ends = [0u64, 1, 300, 1 << 40, u64::MAX];
    let table = encode_offset_table(&ends);
    for (i, end) in ends.iter().enumerate() {
        assert_eq!(decode_single_entry(&table, i as u32), Ok(*end));
    }
    assert_eq!(decode_single_entry(&table, 5), Err(Error::IoFailure));
    assert_eq!(decode_single_entry(&table[..39], 4), Err(Error::IoFailure));
    assert_eq!(decode_single_entry(&table[..39], 3), Ok(1 << 40));
    assert_eq!(decode_single_entry(&[], 0), Err(Error::IoFailure));
    assert_eq!(decode_single_entry(&table, u32::MAX), Err(Error::IoFailure));
}

#[test]
fn little_endian_numbers() {
    let mut out = vec![9u8];
    push_u32_le(&mut out, 0x0a0b_0c0d);
    assert_eq!(out, vec![9, 0x0d, 0x0c, 0x0b, 0x0a]);
    push_u64_le(&mut out, 0x0102_0304_0506_0708);
    assert_eq!(out, vec![9, 0x0d, 0x0c, 0x0b, 0x0a, 8, 7, 6, 5, 4, 3, 2, 1]);
    assert_eq!(u32_from_le(&out, 1), 0x0a0b_0c0d);
    assert_eq!(u64_from_le(&out, 5), 0x0102_0304_0506_0708);
    assert_eq!(u32_from_le(&out, 0), 0x0b0c_0d09);
    for value in [0u64, 1, 255, 256, u32::MAX as u64, u64::MAX - 1, u64::MAX] {
        let mut bytes = Vec::new();
        push_u64_le(&mut bytes, value);
        assert_eq!(bytes, value.to_le_bytes().to_vec());
        assert_eq!(u64_from_le(&bytes, 0), value);
    }
    for value in [0u32, 1, 255, 256, 65_536, u32::MAX] {
        let mut bytes = Vec::new();
        push_u32_le(&mut bytes, value);
        assert_eq!(bytes, value.to_le_bytes().to_vec());
        assert_eq!(u32_from_le(&bytes, 0), value);
    }
}

#[test]
fn names_compare_byte_wise() {
    assert!(name_less(b"a", b"b"));
    assert!(!name_less(b"b", b"a"));
    assert!(!name_less(b"same", b"same"));
    assert!(name_less(b"", b"a"));
    assert!(!name_less(b"", b""));
    assert!(name_less(b"a", b"a.txt"));
    assert!(!name_less(b"a.txt", b"a"));
    // not case-insensitive, not locale-aware
    assert!(name_less(b"Z", b"a"));
    assert!(name_less(b"B.txt", b"a.txt"));
    assert!(name_less(b"z", "é".as_bytes()));
    assert!(name_less(&[0x7f], &[0x80]));
    assert!(name_less(b"file10", b"file2"));
    assert_eq!(common_prefix_len(b"abcd", b"abxd"), 2);
    assert_eq!(common_prefix_len(b"abc", b"abcd"), 3);
    assert_eq!(common_prefix_len(b"", b"abcd"), 0);
}

#[test]
fn sort_order_is_by_name_then_by_position() {
    let names: Vec<&[u8]> = vec![b"b.txt", b"a.txt"];
    assert_eq!(sort_order(&names), vec![1, 0]);
    let names: Vec<&[u8]> = vec![b"pear", b"apple", b"fig", b"apple", b"Pear", b"", b"fig"];
    assert_eq!(sort_order(&names), vec![5, 4, 1, 3, 2, 6, 0]);
    assert_eq!(sort_order(&[]), Vec::<usize>::new());
    let names: Vec<&[u8]> = vec![b"x"];
    assert_eq!(sort_order(&names), vec![0]);
}

#[test]
fn sort_order_matches_a_stable_sort() {
    let mut owned: Vec<Vec<u8>> = Vec::new();
    let mut state: u32 = 12345;
    for _ in 0..500 {
        state = state.wrapping_mul(1_103_515_245).wrapping_add(12_345);
        let len = (state >> 16) % 4;
        let mut name = Vec::new();
        for _ in 0..len {
            state = state.wrapping_mul(1_103_515_245).wrapping_add(12_345);
            name.push(((state >> 16) % 3) as u8 + b'a');
        }
        owned.push(name);
    }
    let names: Vec<&[u8]> = owned.iter().map(|n| n.as_slice()).collect();
    let mut expected: Vec<usize> = (0..names.len()).collect();
    expected.sort_by(|&j, &k| names[j].cmp(names[k]));
    assert_eq!(sort_order(&names), expected);
}
