use bhdns::{
    decode_message, encode_message, CodecError, Header, Name, Packet, Question, ResourceRecord,
    ResponseCode,
};

fn domain(labels: &[&[u8]]) -> Name {
    Name { labels: labels.iter().map(|l| l.to_vec()).collect() }
}

fn query_header(id: u16) -> Header {
    Header {
        id,
        is_response: false,
        opcode: 0,
        is_authoritative_answer: false,
        is_truncated_message: false,
        is_recursion_desired: true,
        is_recursion_available: false,
        z: 0,
        response_code: ResponseCode::NOERROR,
        questions: 0,
        answers: 0,
        authoritative_entries: 0,
        additional_records: 0,
    }
}

fn address(name: Name, ttl: u32, rdata: &[u8]) -> ResourceRecord {
    ResourceRecord { qname: name, qtype: 1, qclass: 1, ttl, rdata: rdata.to_vec() }
}

fn query_bytes() -> Vec<u8> {
    vec![
        0x12, 0x34, 0x01, 0x00, 0x00, 0x01, 0x00, 0x00, 0x00, 0x00, 0x00, 0x00, // header
        0x07, 0x65, 0x78, 0x61, 0x6d, 0x70, 0x6c, 0x65, 0x03, 0x63, 0x6f, 0x6d, 0x00, // name
        0x00, 0x01, 0x00, 0x01, // type and class
    ]
}

fn response() -> Packet {
    let example = domain(&[b"example", b"com"]);
    let mut header = query_header(0xbeef);
    header.is_response = true;
    header.is_recursion_available = true;
    header.questions = 1;
    header.answers = 2;
    header.authoritative_entries = 1;
    header.additional_records = 1;
    Packet {
        header,
        questions: vec![Question { qname: example.clone(), qtype: 1, qclass: 1 }],
        answers: vec![
            address(example.clone(), 300, &[93, 184, 216, 34]),
            address(domain(&[b"www", b"example", b"com"]), 60, &[93, 184, 216, 35]),
        ],
        authority: vec![ResourceRecord {
            qname: domain(&[b"com"]),
            qtype: 2,
            qclass: 1,
            ttl: 86400,
            rdata: vec![1, b'a', 0],
        }],
        additional: vec![address(domain(&[b"a"]), 0x7fffffff, &[])],
    }
}

#[test]
fn query_is_decoded() {
    let packet = decode_message(query_bytes()).unwrap();
    assert_eq!(packet.header.id, 0x1234);
    assert!(!packet.header.is_response);
    assert!(packet.header.is_recursion_desired);
    assert_eq!(packet.header.questions, 1);
    assert_eq!(
        packet.questions,
        vec![Question { qname: domain(&[b"example", b"com"]), qtype: 1, qclass: 1 }]
    );
    assert_eq!(packet.questions[0].qname.to_text(), "example.com");
    assert!(packet.answers.is_empty());
    assert!(packet.authority.is_empty());
    assert!(packet.additional.is_empty());
}

#[test]
fn try_from_decodes_as_decode_message_does() {
    assert_eq!(Packet::try_from(query_bytes()), decode_message(query_bytes()));
    assert_eq!(Packet::try_from(vec![1, 2, 3]), Err(CodecError::TruncatedBuffer));
}

#[test]
fn query_is_encoded_as_it_was_decoded() {
    let packet = decode_message(query_bytes()).unwrap();
    assert_eq!(encode_message(&packet), Ok(query_bytes()));
}

#[test]
fn new_packet_is_empty() {
    let mut header = query_header(7);
    header.questions = 3;
    header.answers = 2;
    let packet = Packet::new(header);
    assert_eq!(packet.header, header);
    assert!(packet.questions.is_empty());
    assert!(packet.answers.is_empty());
    assert!(packet.authority.is_empty());
    assert!(packet.additional.is_empty());
}

#[test]
fn empty_packet_is_its_header() {
    let packet = Packet::new(query_header(0x0102));
    let bytes = encode_message(&packet).unwrap();
    assert_eq!(bytes, vec![0x01, 0x02, 0x01, 0x00, 0, 0, 0, 0, 0, 0, 0, 0]);
    assert_eq!(decode_message(bytes), Ok(packet));
}

#[test]
fn bytes_behind_the_last_record_are_left_alone() {
    let mut bytes = query_bytes();
    bytes.resize(512, 0);
    let padded = decode_message(bytes).unwrap();
    assert_eq!(Ok(padded), decode_message(query_bytes()));
}

#[test]
fn response_is_encoded_with_pointers() {
    let bytes = encode_message(&response()).unwrap();
    let mut expected = vec![
        0xbe, 0xef, 0x81, 0x80, 0x00, 0x01, 0x00, 0x02, 0x00, 0x01, 0x00, 0x01, // header
        0x07, 0x65, 0x78, 0x61, 0x6d, 0x70, 0x6c, 0x65, 0x03, 0x63, 0x6f, 0x6d, 0x00, // 12
        0x00, 0x01, 0x00, 0x01, // 25
    ];
    // example.com again: a pointer to 12.
    expected.extend_from_slice(&[0xc0, 12, 0, 1, 0, 1, 0, 0, 0x01, 0x2c, 0, 4, 93, 184, 216, 34]);
    // www and a pointer to 12.
    expected.extend_from_slice(&[3, b'w', b'w', b'w', 0xc0, 12]);
    expected.extend_from_slice(&[0, 1, 0, 1, 0, 0, 0, 60, 0, 4, 93, 184, 216, 35]);
    // com: a pointer to 20.
    expected.extend_from_slice(&[0xc0, 20, 0, 2, 0, 1, 0, 0x01, 0x51, 0x80, 0, 3, 1, b'a', 0]);
    // a: in full, for names within the data of a record are not learnt.
    expected.extend_from_slice(&[1, b'a', 0, 0, 1, 0, 1, 0x7f, 0xff, 0xff, 0xff, 0, 0]);
    assert_eq!(bytes, expected);
}

#[test]
fn response_is_decoded_as_it_was_encoded() {
    let packet = response();
    let bytes = encode_message(&packet).unwrap();
    assert_eq!(decode_message(bytes), Ok(packet));
}

#[test]
fn counts_are_taken_from_the_lists() {
    let mut packet = response();
    packet.header.questions = 9;
    packet.header.answers = 0;
    packet.header.authoritative_entries = 77;
    packet.header.additional_records = 65535;
    let bytes = encode_message(&packet).unwrap();
    assert_eq!(bytes, encode_message(&response()).unwrap());
    assert_eq!(decode_message(bytes), Ok(response()));
}

#[test]
fn every_cut_of_a_message_is_truncated() {
    let bytes = encode_message(&response()).unwrap();
    for cut in 0..bytes.len() {
        assert_eq!(decode_message(bytes[..cut].to_vec()), Err(CodecError::TruncatedBuffer));
    }
    assert!(decode_message(bytes).is_ok());
}

#[test]
fn every_cut_of_a_query_is_truncated() {
    let bytes = query_bytes();
    for cut in 0..bytes.len() {
        assert_eq!(decode_message(bytes[..cut].to_vec()), Err(CodecError::TruncatedBuffer));
    }
}

#[test]
fn count_beyond_the_records_is_truncated() {
    let mut bytes = query_bytes();
    bytes[7] = 1;
    assert_eq!(decode_message(bytes), Err(CodecError::TruncatedBuffer));
}

#[test]
fn same_name_twice_is_written_once() {
    let name = domain(&[b"example", b"com"]);
    let mut packet = Packet::new(query_header(1));
    packet.questions.push(Question { qname: name.clone(), qtype: 1, qclass: 1 });
    packet.questions.push(Question { qname: name.clone(), qtype: 28, qclass: 1 });
    let bytes = encode_message(&packet).unwrap();
    assert_eq!(bytes.len(), 12 + (13 + 4) + (2 + 4));
    assert!(bytes.len() < 12 + 2 * (13 + 4));
    assert_eq!(&bytes[29..31], &[0xc0, 12]);
    let back = decode_message(bytes).unwrap();
    assert_eq!(back.questions.len(), 2);
    assert_eq!(back.questions[0].qname, name);
    assert_eq!(back.questions[1].qname, name);
    assert_eq!(back.questions[1].qtype, 28);
    assert_eq!(back.header.questions, 2);
}

#[test]
fn root_name_twice_saves_nothing() {
    let mut packet = Packet::new(query_header(1));
    packet.questions.push(Question { qname: domain(&[]), qtype: 2, qclass: 1 });
    packet.questions.push(Question { qname: domain(&[]), qtype: 6, qclass: 1 });
    let bytes = encode_message(&packet).unwrap();
    assert_eq!(bytes.len(), 12 + 2 * (1 + 4));
}

#[test]
fn pointer_to_itself_in_a_message_is_refused() {
    let mut bytes = query_bytes()[..12].to_vec();
    bytes.extend_from_slice(&[0xc0, 12, 0, 1, 0, 1]);
    assert_eq!(decode_message(bytes), Err(CodecError::InvalidPointer));
}

#[test]
fn pointer_into_the_header_is_followed() {
    // The id of the header is read as a label of one byte.
    let mut bytes = vec![0x01, b'x', 0x00, 0x00, 0x00, 0x01, 0, 0, 0, 0, 0, 0];
    bytes.extend_from_slice(&[0xc0, 0, 0, 1, 0, 1]);
    let packet = decode_message(bytes).unwrap();
    assert_eq!(packet.questions[0].qname, domain(&[b"x"]));
}

#[test]
fn faults_of_a_decoding_are_passed_on() {
    let mut bytes = query_bytes()[..12].to_vec();
    bytes.extend_from_slice(&[0x40, 0, 0, 1, 0, 1]);
    assert_eq!(decode_message(bytes), Err(CodecError::LabelTooLong));
    let mut bytes = query_bytes()[..12].to_vec();
    for _ in 0..4 {
        bytes.push(63);
        bytes.extend_from_slice(&[b'a'; 63]);
    }
    bytes.extend_from_slice(&[0, 0, 1, 0, 1]);
    assert_eq!(decode_message(bytes), Err(CodecError::NameTooLong));
    // The fault of a record behind a sound question.
    let mut bytes = query_bytes();
    bytes[7] = 1;
    bytes.extend_from_slice(&[0xc0, 0x30, 0, 1, 0, 1, 0, 0, 0, 0, 0, 0]);
    assert_eq!(decode_message(bytes), Err(CodecError::InvalidPointer));
}

#[test]
fn seventeen_pointers_in_a_message_are_refused() {
    // A root name as the first question, then sixteen questions whose
    // names are pointers, each to the one before, then one more.
    let mut bytes = query_bytes()[..12].to_vec();
    bytes[5] = 18;
    bytes.extend_from_slice(&[0, 0, 1, 0, 1]);
    let mut previous = 12usize;
    for _ in 0..17 {
        let at = bytes.len();
        bytes.extend_from_slice(&[0xc0, previous as u8, 0, 1, 0, 1]);
        previous = at;
    }
    assert_eq!(decode_message(bytes.clone()), Err(CodecError::PointerChainTooLong));
    bytes[5] = 17;
    let packet = decode_message(bytes).unwrap();
    assert_eq!(packet.questions.len(), 17);
    assert_eq!(packet.questions[16].qname, domain(&[]));
}

#[test]
fn question_at_fault_fails_the_encoding() {
    let mut packet = response();
    packet.questions[0].qname = domain(&[b"a", b"", b"b"]);
    assert_eq!(encode_message(&packet), Err(CodecError::EmptyLabel));
    let mut packet = response();
    packet.answers[1].qname = domain(&[&[b'x'; 64]]);
    assert_eq!(encode_message(&packet), Err(CodecError::LabelTooLong));
    let mut packet = response();
    let full = [b'x'; 63];
    packet.authority[0].qname = domain(&[&full, &full, &full, &full]);
    assert_eq!(encode_message(&packet), Err(CodecError::NameTooLong));
    let mut packet = response();
    packet.additional[0].rdata = vec![0; 65536];
    assert_eq!(encode_message(&packet), Err(CodecError::RdataTooLong));
}

#[test]
fn first_fault_in_writing_order_is_named() {
    let mut packet = response();
    packet.additional[0].qname = domain(&[b""]);
    packet.answers[0].rdata = vec![0; 65536];
    assert_eq!(encode_message(&packet), Err(CodecError::RdataTooLong));
    packet.questions[0].qname = domain(&[&[b'x'; 64]]);
    assert_eq!(encode_message(&packet), Err(CodecError::LabelTooLong));
}

#[test]
fn too_many_records_are_refused() {
    let mut packet = Packet::new(query_header(1));
    for _ in 0..65535 {
        packet.questions.push(Question { qname: domain(&[]), qtype: 1, qclass: 1 });
    }
    let bytes = encode_message(&packet).unwrap();
    assert_eq!(bytes.len(), 12 + 65535 * 5);
    assert_eq!(&bytes[4..6], &[0xff, 0xff]);
    assert_eq!(decode_message(bytes).unwrap().questions.len(), 65535);
    packet.questions.push(Question { qname: domain(&[]), qtype: 1, qclass: 1 });
    assert_eq!(encode_message(&packet), Err(CodecError::TooManyRecords));
}

#[test]
fn too_many_answers_are_refused() {
    let mut packet = Packet::new(query_header(1));
    for _ in 0..65536 {
        packet.additional.push(address(domain(&[]), 0, &[]));
    }
    assert_eq!(encode_message(&packet), Err(CodecError::TooManyRecords));
    packet.additional[3].qname = domain(&[b""]);
    assert_eq!(encode_message(&packet), Err(CodecError::EmptyLabel));
}

#[test]
fn message_with_long_chains_of_names_is_decoded_as_it_was_encoded() {
    let mut packet = Packet::new(query_header(3));
    for k in 0..60usize {
        let mut labels: Vec<Vec<u8>> = Vec::new();
        for j in (0..=k).rev() {
            labels.push(vec![b'a' + (j % 26) as u8, b'0' + (j / 26) as u8]);
        }
        packet.answers.push(address(Name { labels }, k as u32, &[k as u8]));
    }
    packet.header.answers = 60;
    let bytes = encode_message(&packet).unwrap();
    assert_eq!(decode_message(bytes), Ok(packet));
}

#[test]
fn message_larger_than_a_pointer_reaches_is_decoded_as_it_was_encoded() {
    let far = domain(&[b"far", b"away"]);
    let mut packet = Packet::new(query_header(4));
    packet.questions.push(Question { qname: domain(&[b"near"]), qtype: 16, qclass: 1 });
    packet.answers.push(ResourceRecord {
        qname: domain(&[b"near"]),
        qtype: 16,
        qclass: 1,
        ttl: 5,
        rdata: vec![0xa5; 20000],
    });
    packet.answers.push(address(far.clone(), 5, &[1]));
    packet.answers.push(address(far.clone(), 5, &[2]));
    packet.answers.push(address(domain(&[b"near"]), 5, &[3]));
    packet.header.questions = 1;
    packet.header.answers = 4;
    let bytes = encode_message(&packet).unwrap();
    let plain = 12 + (6 + 4) + (2 + 10 + 20000) + 2 * (10 + 10 + 1) + (2 + 10 + 1);
    assert_eq!(bytes.len(), plain);
    assert_eq!(decode_message(bytes), Ok(packet));
}

#[test]
fn no_opcode_and_no_response_code_is_refused() {
    for opcode in 0u8..16 {
        for code in 0u8..16 {
            let mut bytes = query_bytes();
            bytes[2] = 0x01 | (opcode << 3);
            bytes[3] = code;
            let packet = decode_message(bytes.clone()).unwrap();
            assert_eq!(packet.header.opcode, opcode);
            assert_eq!(packet.header.response_code.to_u8(), code);
            assert_eq!(encode_message(&packet), Ok(bytes));
        }
    }
}

#[test]
fn decoded_message_is_decoded_again_from_its_encoding() {
    let mut bytes = query_bytes();
    bytes[7] = 1;
    // An answer whose name is a pointer to the question's, and bytes behind it.
    bytes.extend_from_slice(&[0xc0, 12, 0, 1, 0, 1, 0, 0, 1, 44, 0, 4, 10, 0, 0, 1, 0xff, 0xff]);
    let packet = decode_message(bytes.clone()).unwrap();
    let again = encode_message(&packet).unwrap();
    assert_eq!(again[..], bytes[..bytes.len() - 2]);
    assert_eq!(decode_message(again), Ok(packet));
}
