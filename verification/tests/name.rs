use bhdns::name::join_labels;
use bhdns::{Buffer, CodecError, CompressionTable, Name};

fn name_of(labels: &[&[u8]]) -> Name {
    Name { labels: labels.iter().map(|l| l.to_vec()).collect() }
}

fn repeated(byte: u8, count: usize) -> Vec<u8> {
    vec![byte; count]
}

const EXAMPLE_COM: [u8; 13] =
    [0x07, 0x65, 0x78, 0x61, 0x6d, 0x70, 0x6c, 0x65, 0x03, 0x63, 0x6f, 0x6d, 0x00];

#[test]
fn name_in_full_is_read() {
    let mut buf = Buffer::new(EXAMPLE_COM.to_vec());
    assert_eq!(buf.read_name(), Ok(String::from("example.com")));
    assert_eq!(buf.position(), 13);
    buf.seek(0).unwrap();
    let name = buf.read_labels().unwrap();
    assert_eq!(name, name_of(&[b"example", b"com"]));
    assert_eq!(name.to_text(), "example.com");
    assert_eq!(buf.position(), 13);
}

#[test]
fn name_in_full_is_written_as_it_was_read() {
    let mut buf = Buffer::new(Vec::new());
    let mut table = CompressionTable::new();
    let name = name_of(&[b"example", b"com"]);
    assert_eq!(buf.write_name(&name, &mut table), Ok(()));
    assert_eq!(buf.position(), 13);
    assert_eq!(buf.into_bytes(), EXAMPLE_COM.to_vec());
}

#[test]
fn root_name_is_one_zero_byte() {
    let mut buf = Buffer::new(vec![0, 0xff]);
    let name = buf.read_labels().unwrap();
    assert_eq!(name, name_of(&[]));
    assert_eq!(name.to_text(), "");
    assert_eq!(buf.position(), 1);
    buf.seek(0).unwrap();
    assert_eq!(buf.read_name(), Ok(String::new()));
    assert_eq!(buf.position(), 1);
    let mut out = Buffer::new(Vec::new());
    let mut table = CompressionTable::new();
    assert_eq!(out.write_name(&name, &mut table), Ok(()));
    assert_eq!(out.write_name(&name, &mut table), Ok(()));
    assert_eq!(out.into_bytes(), vec![0, 0]);
}

#[test]
fn name_with_one_label_has_no_dot() {
    assert_eq!(name_of(&[b"localhost"]).to_text(), "localhost");
}

#[test]
fn malformed_text_is_replaced() {
    let name = name_of(&[&[0x61, 0xff, 0x62], b"com"]);
    assert_eq!(name.to_text(), "a\u{fffd}b.com");
}

#[test]
fn text_of_more_than_one_byte_is_read_as_utf8() {
    let name = name_of(&[&[0xc3, 0xa9], &[0xe2, 0x82, 0xac]]);
    assert_eq!(name.to_text(), "\u{e9}.\u{20ac}");
}

#[test]
fn join_labels_puts_dots_between() {
    assert_eq!(join_labels(&vec![]), "");
    assert_eq!(join_labels(&vec![String::from("a")]), "a");
    assert_eq!(
        join_labels(&vec![String::from("a"), String::from(""), String::from("bc")]),
        "a..bc"
    );
}

#[test]
fn pointer_is_followed() {
    // "example.com" at 0, then "www" and a pointer to 0 at 13.
    let mut bytes = EXAMPLE_COM.to_vec();
    bytes.extend_from_slice(&[3, b'w', b'w', b'w', 0xc0, 0x00, 0xaa]);
    let mut buf = Buffer::new(bytes);
    buf.seek(13).unwrap();
    let name = buf.read_labels().unwrap();
    assert_eq!(name, name_of(&[b"www", b"example", b"com"]));
    assert_eq!(buf.position(), 19);
}

#[test]
fn pointer_into_the_middle_of_a_name_is_followed() {
    let mut bytes = EXAMPLE_COM.to_vec();
    bytes.extend_from_slice(&[0xc0, 0x08]);
    let mut buf = Buffer::new(bytes);
    buf.seek(13).unwrap();
    assert_eq!(buf.read_labels(), Ok(name_of(&[b"com"])));
    assert_eq!(buf.position(), 15);
}

#[test]
fn pointer_uses_fourteen_bits() {
    let mut bytes = vec![0u8; 0x0123];
    bytes.extend_from_slice(&[1, b'x', 0]);
    bytes.extend_from_slice(&[0xc1, 0x23]);
    let mut buf = Buffer::new(bytes);
    buf.seek(0x0126).unwrap();
    assert_eq!(buf.read_labels(), Ok(name_of(&[b"x"])));
    assert_eq!(buf.position(), 0x0128);
}

#[test]
fn pointer_to_itself_is_refused() {
    let mut buf = Buffer::new(vec![0, 0, 0xc0, 0x02]);
    buf.seek(2).unwrap();
    assert_eq!(buf.read_labels(), Err(CodecError::InvalidPointer));
    assert_eq!(buf.position(), 2);
}

#[test]
fn pointer_ahead_is_refused() {
    let mut buf = Buffer::new(vec![0xc0, 0x02, 0x00]);
    assert_eq!(buf.read_labels(), Err(CodecError::InvalidPointer));
    let mut buf = Buffer::new(vec![0xff, 0xff, 0x00]);
    assert_eq!(buf.read_labels(), Err(CodecError::InvalidPointer));
}

#[test]
fn pointer_without_its_second_byte_is_truncated() {
    let mut buf = Buffer::new(vec![0x00, 0xc0]);
    buf.seek(1).unwrap();
    assert_eq!(buf.read_labels(), Err(CodecError::TruncatedBuffer));
    assert_eq!(buf.position(), 1);
}

fn chain_of_pointers(count: usize) -> Vec<u8> {
    // The root at 0, then pointers at 1, 3, 5, ..: each to the one before.
    let mut bytes = vec![0u8];
    for k in 0..count {
        let target = if k == 0 { 0 } else { 1 + 2 * (k - 1) };
        bytes.push(0xc0);
        bytes.push(target as u8);
    }
    bytes
}

#[test]
fn sixteen_pointers_in_a_row_are_followed() {
    let mut buf = Buffer::new(chain_of_pointers(16));
    buf.seek(31).unwrap();
    assert_eq!(buf.read_labels(), Ok(name_of(&[])));
    assert_eq!(buf.position(), 33);
}

#[test]
fn seventeen_pointers_in_a_row_are_refused() {
    let mut buf = Buffer::new(chain_of_pointers(17));
    buf.seek(33).unwrap();
    assert_eq!(buf.read_labels(), Err(CodecError::PointerChainTooLong));
    assert_eq!(buf.position(), 33);
}

#[test]
fn pointers_that_go_round_are_refused() {
    // A label at 0 runs into the pointer at 2, which points back to 0.
    let mut buf = Buffer::new(vec![1, b'a', 0xc0, 0x00]);
    let r = buf.read_labels();
    assert_eq!(r, Err(CodecError::PointerChainTooLong));
    assert_eq!(buf.position(), 0);
}

#[test]
fn label_length_above_63_is_refused() {
    let mut bytes = vec![64u8];
    bytes.extend_from_slice(&repeated(b'a', 64));
    bytes.push(0);
    let mut buf = Buffer::new(bytes);
    assert_eq!(buf.read_labels(), Err(CodecError::LabelTooLong));
    let mut buf = Buffer::new(vec![0xbf, 0x00]);
    assert_eq!(buf.read_labels(), Err(CodecError::LabelTooLong));
    assert_eq!(buf.position(), 0);
}

#[test]
fn label_of_63_bytes_is_read() {
    let mut bytes = vec![63u8];
    bytes.extend_from_slice(&repeated(b'a', 63));
    bytes.push(0);
    let mut buf = Buffer::new(bytes);
    let label = repeated(b'a', 63);
    assert_eq!(buf.read_labels(), Ok(name_of(&[&label])));
    assert_eq!(buf.position(), 65);
}

#[test]
fn label_that_runs_past_the_end_is_truncated() {
    let mut buf = Buffer::new(vec![3, b'a', b'b']);
    assert_eq!(buf.read_labels(), Err(CodecError::TruncatedBuffer));
    assert_eq!(buf.position(), 0);
}

#[test]
fn name_without_its_end_is_truncated() {
    let mut buf = Buffer::new(vec![1, b'a']);
    assert_eq!(buf.read_labels(), Err(CodecError::TruncatedBuffer));
    let mut buf = Buffer::new(vec![]);
    assert_eq!(buf.read_labels(), Err(CodecError::TruncatedBuffer));
}

fn wire_of_labels(sizes: &[usize]) -> Vec<u8> {
    let mut bytes = Vec::new();
    for size in sizes {
        bytes.push(*size as u8);
        bytes.extend_from_slice(&repeated(b'a', *size));
    }
    bytes.push(0);
    bytes
}

#[test]
fn name_of_255_bytes_is_read() {
    let bytes = wire_of_labels(&[63, 63, 63, 61]);
    assert_eq!(bytes.len(), 255);
    let mut buf = Buffer::new(bytes);
    let name = buf.read_labels().unwrap();
    assert_eq!(name.labels.len(), 4);
    assert_eq!(name.validate(), Ok(()));
    assert_eq!(buf.position(), 255);
}

#[test]
fn name_of_256_bytes_is_refused() {
    let bytes = wire_of_labels(&[63, 63, 63, 62]);
    assert_eq!(bytes.len(), 256);
    let mut buf = Buffer::new(bytes);
    assert_eq!(buf.read_labels(), Err(CodecError::NameTooLong));
    assert_eq!(buf.position(), 0);
}

#[test]
fn name_that_grows_too_long_by_a_pointer_is_refused() {
    // 200 bytes of labels at 0, then 61 more and a pointer back to them.
    let mut bytes = wire_of_labels(&[63, 63, 63, 7]);
    let second = bytes.len();
    bytes.extend_from_slice(&[60]);
    bytes.extend_from_slice(&repeated(b'b', 60));
    bytes.extend_from_slice(&[0xc0, 0x00]);
    let mut buf = Buffer::new(bytes);
    buf.seek(second).unwrap();
    assert_eq!(buf.read_labels(), Err(CodecError::NameTooLong));
}

#[test]
fn validate_names_each_fault() {
    assert_eq!(name_of(&[]).validate(), Ok(()));
    assert_eq!(name_of(&[b"a", b"bc"]).validate(), Ok(()));
    assert_eq!(name_of(&[b"a", b""]).validate(), Err(CodecError::EmptyLabel));
    let long = repeated(b'x', 64);
    assert_eq!(name_of(&[&long]).validate(), Err(CodecError::LabelTooLong));
    let full = repeated(b'x', 63);
    assert_eq!(name_of(&[&full, &full, &full, &full[..61]]).validate(), Ok(()));
    assert_eq!(
        name_of(&[&full, &full, &full, &full[..62]]).validate(),
        Err(CodecError::NameTooLong)
    );
}

#[test]
fn validate_names_the_empty_label_first() {
    let long = repeated(b'x', 300);
    assert_eq!(name_of(&[&long, b""]).validate(), Err(CodecError::EmptyLabel));
    let full = repeated(b'x', 63);
    assert_eq!(
        name_of(&[&full, &full, &full, &full, &long]).validate(),
        Err(CodecError::LabelTooLong)
    );
}

#[test]
fn name_at_fault_is_not_written() {
    let mut buf = Buffer::new(vec![1, 2, 3]);
    buf.seek(3).unwrap();
    let mut table = CompressionTable::new();
    assert_eq!(
        buf.write_name(&name_of(&[b"a", b""]), &mut table),
        Err(CodecError::EmptyLabel)
    );
    assert_eq!(buf.position(), 3);
    // Nothing of the name was learnt: it is written in full afterwards.
    assert_eq!(buf.write_name(&name_of(&[b"a"]), &mut table), Ok(()));
    assert_eq!(buf.into_bytes(), vec![1, 2, 3, 1, b'a', 0]);
}

#[test]
fn name_written_twice_is_a_pointer_the_second_time() {
    let mut buf = Buffer::new(vec![0; 12]);
    buf.seek(12).unwrap();
    let mut table = CompressionTable::new();
    let name = name_of(&[b"example", b"com"]);
    buf.write_name(&name, &mut table).unwrap();
    buf.write_name(&name, &mut table).unwrap();
    assert_eq!(buf.position(), 27);
    let bytes = buf.into_bytes();
    assert_eq!(&bytes[12..25], &EXAMPLE_COM[..]);
    assert_eq!(&bytes[25..], &[0xc0, 12]);
    let mut back = Buffer::new(bytes);
    back.seek(25).unwrap();
    assert_eq!(back.read_labels(), Ok(name));
}

#[test]
fn rest_of_a_name_is_shared() {
    let mut buf = Buffer::new(Vec::new());
    let mut table = CompressionTable::new();
    buf.write_name(&name_of(&[b"example", b"com"]), &mut table).unwrap();
    buf.write_name(&name_of(&[b"www", b"example", b"com"]), &mut table).unwrap();
    buf.write_name(&name_of(&[b"org"]), &mut table).unwrap();
    buf.write_name(&name_of(&[b"mail", b"com"]), &mut table).unwrap();
    buf.write_name(&name_of(&[b"ftp", b"www", b"example", b"com"]), &mut table).unwrap();
    let mut expected = EXAMPLE_COM.to_vec();
    expected.extend_from_slice(&[3, b'w', b'w', b'w', 0xc0, 0]);
    expected.extend_from_slice(&[3, b'o', b'r', b'g', 0]);
    expected.extend_from_slice(&[4, b'm', b'a', b'i', b'l', 0xc0, 8]);
    expected.extend_from_slice(&[3, b'f', b't', b'p', 0xc0, 13]);
    assert_eq!(buf.into_bytes(), expected);
}

#[test]
fn names_differing_in_case_are_different_names() {
    let mut buf = Buffer::new(Vec::new());
    let mut table = CompressionTable::new();
    buf.write_name(&name_of(&[b"com"]), &mut table).unwrap();
    buf.write_name(&name_of(&[b"COM"]), &mut table).unwrap();
    assert_eq!(buf.into_bytes(), vec![3, b'c', b'o', b'm', 0, 3, b'C', b'O', b'M', 0]);
}

#[test]
fn name_behind_the_reach_of_a_pointer_is_not_pointed_to() {
    let mut buf = Buffer::new(vec![0; 16384]);
    buf.seek(16384).unwrap();
    let mut table = CompressionTable::new();
    let name = name_of(&[b"far"]);
    buf.write_name(&name, &mut table).unwrap();
    buf.write_name(&name, &mut table).unwrap();
    let bytes = buf.into_bytes();
    assert_eq!(&bytes[16384..], &[3, b'f', b'a', b'r', 0, 3, b'f', b'a', b'r', 0]);
}

#[test]
fn name_just_within_the_reach_of_a_pointer_is_pointed_to() {
    let mut buf = Buffer::new(vec![0; 16383]);
    buf.seek(16383).unwrap();
    let mut table = CompressionTable::new();
    let name = name_of(&[b"near", b"far"]);
    buf.write_name(&name, &mut table).unwrap();
    buf.write_name(&name, &mut table).unwrap();
    buf.write_name(&name_of(&[b"far"]), &mut table).unwrap();
    let bytes = buf.into_bytes();
    assert_eq!(
        &bytes[16383..],
        &[4, b'n', b'e', b'a', b'r', 3, b'f', b'a', b'r', 0, 0xff, 0xff, 3, b'f', b'a', b'r', 0]
    );
}

#[test]
fn pointers_are_not_chained_beyond_what_is_read_again() {
    // Each name is the one before with one more label in front, so each
    // pointer leads to another pointer.
    let mut buf = Buffer::new(Vec::new());
    let mut table = CompressionTable::new();
    let mut names = Vec::new();
    let mut starts = Vec::new();
    for k in 0..40usize {
        let mut labels: Vec<Vec<u8>> = Vec::new();
        for j in (0..=k).rev() {
            labels.push(vec![b'a' + (j % 26) as u8, b'0' + (j / 26) as u8]);
        }
        let name = Name { labels };
        starts.push(buf.position());
        assert_eq!(buf.write_name(&name, &mut table), Ok(()));
        names.push(name);
    }
    let mut back = Buffer::new(buf.into_bytes());
    for k in 0..40usize {
        back.seek(starts[k]).unwrap();
        assert_eq!(back.read_labels().as_ref(), Ok(&names[k]));
    }
}

#[test]
fn name_behind_a_pointer_is_read_as_text() {
    let mut bytes = EXAMPLE_COM.to_vec();
    bytes.extend_from_slice(&[3, b'w', b'w', b'w', 0xc0, 0x00, 0xaa]);
    let mut buf = Buffer::new(bytes);
    buf.seek(13).unwrap();
    assert_eq!(buf.read_name(), Ok(String::from("www.example.com")));
    assert_eq!(buf.position(), 19);
}

#[test]
fn name_that_cannot_be_read_has_no_text() {
    let mut buf = Buffer::new(vec![0, 0, 0xc0, 0x02]);
    buf.seek(2).unwrap();
    assert_eq!(buf.read_name(), Err(CodecError::InvalidPointer));
    assert_eq!(buf.position(), 2);
    let mut buf = Buffer::new(vec![3, b'a', b'b']);
    assert_eq!(buf.read_name(), Err(CodecError::TruncatedBuffer));
    assert_eq!(buf.position(), 0);
}

#[test]
fn malformed_label_is_read_as_text_with_replacements() {
    let mut buf = Buffer::new(vec![2, 0xff, b'a', 1, b'b', 0]);
    assert_eq!(buf.read_name(), Ok(String::from("\u{fffd}a.b")));
}
