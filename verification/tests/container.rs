use ofc::builder::{create, member_count, plan, Entry, Member};
use ofc::error::Error;
use ofc::inspector::{info, info_line, ranges, table_len, MemberInfo};
use ofc::reader::{body_offset, locate, read, slot_window};

fn member(name: &str, data: &[u8]) -> Member {
    Member { name: name.as_bytes().to_vec(), data: data.to_vec() }
}

fn entry(name: &str, size: u64) -> Entry {
    Entry { name: name.as_bytes().to_vec(), size }
}

fn two_files() -> Vec<u8> {
    create(&vec![member("b.txt", b"XY"), member("a.txt", b"Z")]).unwrap()
}

#[test]
fn example_container_bytes() {
    let expected: Vec<u8> = vec![
        b'o', b'f', b'c', 0, // magic tag
        2, 0, 0, 0, // member count
        1, 0, 0, 0, 0, 0, 0, 0, // end of a.txt
        3, 0, 0, 0, 0, 0, 0, 0, // end of b.txt
        b'Z', b'X', b'Y',
    ];
    assert_eq!(two_files(), expected);
}

#[test]
fn example_read_each_member() {
    let container = two_files();
    assert_eq!(read(&container, 0), Ok(&b"Z"[..]));
    assert_eq!(read(&container, 1), Ok(&b"XY"[..]));
}

#[test]
fn example_info() {
    let container = two_files();
    let members = info(&container).unwrap();
    assert_eq!(
        members,
        vec![MemberInfo { start: 0, len: 1 }, MemberInfo { start: 1, len: 2 }]
    );
    assert_eq!(info_line(0, &members[0]), b"0 offset=0, len=1".to_vec());
    assert_eq!(info_line(1, &members[1]), b"1 offset=1, len=2".to_vec());
}

#[test]
fn example_plan() {
    let planned = plan(&vec![entry("b.txt", 2), entry("a.txt", 1)]).unwrap();
    assert_eq!(planned.order, vec![1, 0]);
    assert_eq!(planned.body_len, 3);
    assert_eq!(
        planned.header,
        vec![
            b'o', b'f', b'c', 0, 2, 0, 0, 0, 1, 0, 0, 0, 0, 0, 0, 0, 3, 0, 0, 0, 0, 0, 0, 0
        ]
    );
}

#[test]
fn plan_agrees_with_create() {
    let members = vec![
        member("delta", b"dddd"),
        member("alpha", b"a"),
        member("charlie", b""),
        member("bravo", b"bbbbbbbbbbbb"),
    ];
    let entries: Vec<Entry> = members
        .iter()
        .map(|m| Entry { name: m.name.clone(), size: m.data.len() as u64 })
        .collect();
    let planned = plan(&entries).unwrap();
    let mut written = planned.header.clone();
    for &k in &planned.order {
        written.extend_from_slice(&members[k].data);
    }
    assert_eq!(planned.order, vec![1, 3, 2, 0]);
    assert_eq!(planned.body_len, 17);
    assert_eq!(create(&members).unwrap(), written);
}

#[test]
fn round_trip_in_name_order() {
    let members = vec![
        member("zeta", b"last"),
        member("Alpha", b"upper case sorts first"),
        member("alpha", &[0, 255, 1, 254]),
        member("", b"the empty name"),
        member("alpha.txt", b""),
        member("beta", &[7u8; 300]),
    ];
    let container = create(&members).unwrap();
    let sorted = ["", "Alpha", "alpha", "alpha.txt", "beta", "zeta"];
    for (position, name) in sorted.iter().enumerate() {
        let packed = members.iter().find(|m| m.name == name.as_bytes()).unwrap();
        assert_eq!(read(&container, position as u32), Ok(packed.data.as_slice()));
    }
    assert_eq!(
        read(&container, 6),
        Err(Error::IndexOutOfRange { index: 6, count: 6 })
    );
}

#[test]
fn container_length_is_header_table_and_bodies() {
    let members = vec![member("a", &[1u8; 10]), member("b", &[2u8; 20]), member("c", &[3u8; 5])];
    let container = create(&members).unwrap();
    assert_eq!(container.len(), 8 + 8 * 3 + 35);
    assert_eq!(body_offset(3), 32);
    assert_eq!(table_len(3), 24);
}

#[test]
fn first_member_starts_at_zero() {
    let container = create(&vec![member("only", b"hello")]).unwrap();
    assert_eq!(slot_window(1, 0), Ok((8, 8)));
    assert_eq!(read(&container, 0), Ok(&b"hello"[..]));
    assert_eq!(info(&container), Ok(vec![MemberInfo { start: 0, len: 5 }]));
}

#[test]
fn out_of_range_index_is_refused() {
    let container = two_files();
    assert_eq!(
        read(&container, 2),
        Err(Error::IndexOutOfRange { index: 2, count: 2 })
    );
    assert_eq!(
        read(&container, u32::MAX),
        Err(Error::IndexOutOfRange { index: u32::MAX, count: 2 })
    );
    assert_eq!(
        slot_window(2, 2),
        Err(Error::IndexOutOfRange { index: 2, count: 2 })
    );
    assert_eq!(
        locate(2, 5, &[0u8; 16]),
        Err(Error::IndexOutOfRange { index: 5, count: 2 })
    );
}

#[test]
fn empty_container() {
    let container = create(&Vec::new()).unwrap();
    assert_eq!(container, vec![b'o', b'f', b'c', 0, 0, 0, 0, 0]);
    assert_eq!(info(&container), Ok(Vec::new()));
    assert_eq!(
        read(&container, 0),
        Err(Error::IndexOutOfRange { index: 0, count: 0 })
    );
    assert_eq!(
        read(&container, 17),
        Err(Error::IndexOutOfRange { index: 17, count: 0 })
    );
    let planned = plan(&Vec::new()).unwrap();
    assert_eq!(planned.order, Vec::<usize>::new());
    assert_eq!(planned.header, container);
    assert_eq!(planned.body_len, 0);
}

#[test]
fn zero_length_members_repeat_the_offset() {
    let members = vec![member("a", b"xx"), member("b", b""), member("c", b""), member("d", b"y")];
    let container = create(&members).unwrap();
    assert_eq!(
        info(&container),
        Ok(vec![
            MemberInfo { start: 0, len: 2 },
            MemberInfo { start: 2, len: 0 },
            MemberInfo { start: 2, len: 0 },
            MemberInfo { start: 2, len: 1 },
        ])
    );
    assert_eq!(read(&container, 1), Ok(&b""[..]));
    assert_eq!(read(&container, 3), Ok(&b"y"[..]));
}

#[test]
fn wrong_magic_is_invalid_format() {
    let mut container = two_files();
    container[2] = b'd';
    assert_eq!(read(&container, 0), Err(Error::InvalidFormat));
    assert_eq!(read(&container, 9), Err(Error::InvalidFormat));
    assert_eq!(info(&container), Err(Error::InvalidFormat));
    assert_eq!(read(b"zip!", 0), Err(Error::InvalidFormat));
    assert_eq!(info(b"zip!\x01"), Err(Error::InvalidFormat));
    assert_eq!(read(b"OFC\0\0\0\0\0", 0), Err(Error::InvalidFormat));
}

#[test]
fn truncated_files_are_io_failures() {
    let container = two_files();
    assert_eq!(read(b"", 0), Err(Error::IoFailure));
    assert_eq!(info(b"of"), Err(Error::IoFailure));
    assert_eq!(read(&container[..4], 0), Err(Error::IoFailure));
    assert_eq!(info(&container[..7]), Err(Error::IoFailure));
    // the table ends before the entry of the member
    assert_eq!(read(&container[..15], 0), Err(Error::IoFailure));
    assert_eq!(read(&container[..23], 1), Err(Error::IoFailure));
    assert_eq!(info(&container[..23]), Err(Error::IoFailure));
    // the bodies end before the member does
    assert_eq!(read(&container[..24], 0), Err(Error::IoFailure));
    assert_eq!(read(&container[..26], 1), Err(Error::IoFailure));
    // what is there can still be had
    assert_eq!(read(&container[..25], 0), Ok(&b"Z"[..]));
    assert_eq!(info(&container[..24]).map(|m| m.len()), Ok(2));
}

#[test]
fn table_that_runs_backwards_is_invalid_format() {
    let mut container = two_files();
    container[16] = 0; // second entry becomes 0, below the first
    assert_eq!(read(&container, 0), Ok(&b"Z"[..]));
    assert_eq!(read(&container, 1), Err(Error::InvalidFormat));
    assert_eq!(info(&container), Err(Error::InvalidFormat));
    let mut window = vec![0u8; 16];
    window[0] = 9;
    window[8] = 8;
    assert_eq!(locate(4, 2, &window), Err(Error::InvalidFormat));
}

#[test]
fn slot_window_covers_two_adjacent_entries() {
    assert_eq!(slot_window(10, 0), Ok((8, 8)));
    assert_eq!(slot_window(10, 1), Ok((8, 16)));
    assert_eq!(slot_window(10, 2), Ok((16, 16)));
    assert_eq!(slot_window(10, 9), Ok((72, 16)));
    assert_eq!(
        slot_window(u32::MAX, u32::MAX - 1),
        Ok((8 + 8 * (u32::MAX as u64 - 2), 16))
    );
}

#[test]
fn locate_gives_file_offset_and_length() {
    let mut first = vec![0u8; 8];
    first[0] = 5;
    assert_eq!(locate(3, 0, &first), Ok((32, 5)));
    let mut window = vec![0u8; 16];
    window[0] = 5;
    window[8] = 0x2c;
    window[9] = 0x01; // 300
    assert_eq!(locate(3, 1, &window), Ok((37, 295)));
    assert_eq!(locate(3, 1, &window[..15]), Err(Error::IoFailure));
    assert_eq!(locate(3, 0, &first[..7]), Err(Error::IoFailure));
    // an end that no file offset can reach
    let huge = vec![0xffu8; 8];
    assert_eq!(locate(1, 0, &huge), Err(Error::IoFailure));
    let mut reachable = vec![0xffu8; 8];
    reachable[0] = 0xef; // u64::MAX - 16
    assert_eq!(locate(1, 0, &reachable), Ok((16, u64::MAX - 16)));
}

#[test]
fn ranges_reads_only_the_table() {
    let container = two_files();
    assert_eq!(
        ranges(2, &container[8..24]),
        Ok(vec![MemberInfo { start: 0, len: 1 }, MemberInfo { start: 1, len: 2 }])
    );
    assert_eq!(
        ranges(1, &container[8..]),
        Ok(vec![MemberInfo { start: 0, len: 1 }])
    );
    assert_eq!(ranges(0, &[]), Ok(Vec::new()));
    assert_eq!(ranges(3, &container[8..]), Err(Error::IoFailure));
}

#[test]
fn info_line_prints_decimal_numbers() {
    assert_eq!(
        info_line(12, &MemberInfo { start: 1000, len: 90210 }),
        b"12 offset=1000, len=90210".to_vec()
    );
    assert_eq!(
        info_line(u32::MAX, &MemberInfo { start: u64::MAX, len: 0 }),
        b"4294967295 offset=18446744073709551615, len=0".to_vec()
    );
    assert_eq!(
        info_line(0, &MemberInfo { start: 10, len: 109 }),
        b"0 offset=10, len=109".to_vec()
    );
}

#[test]
fn too_many_files() {
    assert_eq!(member_count(0), Ok(0));
    assert_eq!(member_count(u32::MAX as usize), Ok(u32::MAX));
    if usize::BITS > 32 {
        let found = u32::MAX as usize + 1;
        assert_eq!(member_count(found), Err(Error::TooManyFiles { found }));
        assert_eq!(
            member_count(usize::MAX),
            Err(Error::TooManyFiles { found: usize::MAX })
        );
    }
}

#[test]
fn sizes_beyond_64_bits_are_too_large() {
    let entries = vec![entry("a", u64::MAX), entry("b", 1)];
    assert!(matches!(plan(&entries), Err(Error::TooLarge)));
    let fits = vec![entry("a", u64::MAX - 1), entry("b", 1), entry("c", 0)];
    let planned = plan(&fits).unwrap();
    assert_eq!(planned.body_len, u64::MAX);
    assert_eq!(&planned.header[8..16], &(u64::MAX - 1).to_le_bytes());
    assert_eq!(&planned.header[16..24], &u64::MAX.to_le_bytes());
    assert_eq!(&planned.header[24..32], &u64::MAX.to_le_bytes());
}
