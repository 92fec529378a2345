use bhdns::{CodecError, Header, ResponseCode};

fn plain_header() -> Header {
    Header {
        id: 0,
        is_response: false,
        opcode: 0,
        is_authoritative_answer: false,
        is_truncated_message: false,
        is_recursion_desired: false,
        is_recursion_available: false,
        z: 0,
        response_code: ResponseCode::NOERROR,
        questions: 0,
        answers: 0,
        authoritative_entries: 0,
        additional_records: 0,
    }
}

#[test]
fn header_of_a_plain_query() {
    let bytes = [0x12, 0x34, 0x01, 0x00, 0x00, 0x01, 0x00, 0x00, 0x00, 0x00, 0x00, 0x00];
    let h = Header::try_from(&bytes[..]).unwrap();
    assert_eq!(h.id, 0x1234);
    assert!(!h.is_response);
    assert_eq!(h.opcode, 0);
    assert!(!h.is_authoritative_answer);
    assert!(!h.is_truncated_message);
    assert!(h.is_recursion_desired);
    assert!(!h.is_recursion_available);
    assert_eq!(h.z, 0);
    assert_eq!(h.response_code, ResponseCode::NOERROR);
    assert_eq!(h.questions, 1);
    assert_eq!(h.answers, 0);
    assert_eq!(h.authoritative_entries, 0);
    assert_eq!(h.additional_records, 0);
    assert_eq!(h.encode(), bytes);
}

#[test]
fn header_needs_twelve_bytes() {
    let bytes = [0u8; 11];
    assert_eq!(Header::try_from(&bytes[..]), Err(CodecError::TruncatedBuffer));
    assert_eq!(Header::try_from(&bytes[..0]), Err(CodecError::TruncatedBuffer));
}

#[test]
fn header_reads_only_the_first_twelve_bytes() {
    let mut bytes = vec![0x12, 0x34, 0x01, 0x00, 0x00, 0x01, 0x00, 0x00, 0x00, 0x00, 0x00, 0x00];
    let short = Header::try_from(&bytes[..]).unwrap();
    bytes.extend_from_slice(&[0xff, 0xff, 0xff]);
    assert_eq!(Header::try_from(&bytes[..]), Ok(short));
}

#[test]
fn header_of_a_response_with_every_flag() {
    let bytes = [0xff, 0xfe, 0xff, 0xff, 0x00, 0x01, 0x00, 0x02, 0x00, 0x03, 0x01, 0x00];
    let h = Header::try_from(&bytes[..]).unwrap();
    assert_eq!(h.id, 0xfffe);
    assert!(h.is_response);
    assert_eq!(h.opcode, 15);
    assert!(h.is_authoritative_answer);
    assert!(h.is_truncated_message);
    assert!(h.is_recursion_desired);
    assert!(h.is_recursion_available);
    assert_eq!(h.z, 7);
    assert_eq!(h.response_code, ResponseCode::Reserved(15));
    assert_eq!(h.questions, 1);
    assert_eq!(h.answers, 2);
    assert_eq!(h.authoritative_entries, 3);
    assert_eq!(h.additional_records, 256);
    assert_eq!(h.encode(), bytes);
}

#[test]
fn header_places_each_field() {
    let mut h = plain_header();
    h.is_response = true;
    assert_eq!(h.encode()[2], 0x80);
    let mut h = plain_header();
    h.opcode = 2;
    assert_eq!(h.encode()[2], 0x10);
    let mut h = plain_header();
    h.is_authoritative_answer = true;
    assert_eq!(h.encode()[2], 0x04);
    let mut h = plain_header();
    h.is_truncated_message = true;
    assert_eq!(h.encode()[2], 0x02);
    let mut h = plain_header();
    h.is_recursion_desired = true;
    assert_eq!(h.encode()[2], 0x01);
    let mut h = plain_header();
    h.is_recursion_available = true;
    assert_eq!(h.encode()[3], 0x80);
    let mut h = plain_header();
    h.z = 5;
    assert_eq!(h.encode()[3], 0x50);
    let mut h = plain_header();
    h.response_code = ResponseCode::NXDOMAIN;
    assert_eq!(h.encode()[3], 0x03);
}

#[test]
fn header_keeps_reserved_codes_and_bits() {
    for code in 6u8..16 {
        for z in 0u8..8 {
            let mut h = plain_header();
            h.response_code = ResponseCode::Reserved(code);
            h.z = z;
            let bytes = h.encode();
            assert_eq!(bytes[3], z * 16 + code);
            assert_eq!(Header::try_from(&bytes[..]), Ok(h));
        }
    }
}

#[test]
fn header_bytes_round_trip_for_every_flag_pattern() {
    for high in 0u16..256 {
        for low in 0u16..256 {
            let bytes = [0xab, 0xcd, high as u8, low as u8, 1, 2, 3, 4, 5, 6, 7, 8];
            let h = Header::try_from(&bytes[..]).unwrap();
            assert_eq!(h.encode(), bytes);
            assert_eq!(Header::try_from(&h.encode()[..]), Ok(h));
        }
    }
}

#[test]
fn header_cuts_fields_down_to_their_bits() {
    let mut h = plain_header();
    h.opcode = 0x1f;
    h.z = 0x0f;
    h.response_code = ResponseCode::Reserved(0x13);
    let bytes = h.encode();
    assert_eq!(bytes[2], 0x78);
    assert_eq!(bytes[3], 0x73);
}

#[test]
fn response_codes_have_their_numbers() {
    assert_eq!(ResponseCode::NOERROR.to_u8(), 0);
    assert_eq!(ResponseCode::FORMERR.to_u8(), 1);
    assert_eq!(ResponseCode::SERVFAIL.to_u8(), 2);
    assert_eq!(ResponseCode::NXDOMAIN.to_u8(), 3);
    assert_eq!(ResponseCode::NOTIMP.to_u8(), 4);
    assert_eq!(ResponseCode::REFUSED.to_u8(), 5);
    assert_eq!(ResponseCode::Reserved(9).to_u8(), 9);
    assert_eq!(ResponseCode::from_u8(0), ResponseCode::NOERROR);
    assert_eq!(ResponseCode::from_u8(5), ResponseCode::REFUSED);
    assert_eq!(ResponseCode::from_u8(6), ResponseCode::Reserved(6));
    assert_eq!(ResponseCode::from_u8(15), ResponseCode::Reserved(15));
    for v in 0u8..16 {
        assert_eq!(ResponseCode::from_u8(v).to_u8(), v);
    }
}
