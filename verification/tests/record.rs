use bhdns::{
    Buffer, CodecError, CompressionTable, Name, QueryClass, QueryType, Question, ResourceRecord,
};

fn labels_of(labels: &[&[u8]]) -> Name {
    Name { labels: labels.iter().map(|l| l.to_vec()).collect() }
}

#[test]
fn question_is_read() {
    let mut buf = Buffer::new(vec![1, b'a', 0, 0x00, 0x1c, 0x00, 0x01, 0xee]);
    let q = Question::read(&mut buf).unwrap();
    assert_eq!(q, Question { qname: labels_of(&[b"a"]), qtype: 28, qclass: 1 });
    assert_eq!(q.query_type(), QueryType::AAAA);
    assert_eq!(q.query_class(), QueryClass::INTERNET);
    assert_eq!(buf.position(), 7);
}

#[test]
fn question_type_takes_two_bytes() {
    let mut buf = Buffer::new(vec![0, 0x01, 0x01, 0x12, 0x34]);
    let q = Question::read(&mut buf).unwrap();
    assert_eq!(q.qtype, 257);
    assert_eq!(q.qclass, 0x1234);
    assert_eq!(q.query_type(), QueryType::CAA);
    assert_eq!(q.query_class(), QueryClass::Unknown(0x1234));
}

#[test]
fn question_without_its_class_is_truncated() {
    for cut in 0..7 {
        let bytes = vec![1, b'a', 0, 0x00, 0x1c, 0x00, 0x01];
        let mut buf = Buffer::new(bytes[..cut].to_vec());
        assert_eq!(Question::read(&mut buf), Err(CodecError::TruncatedBuffer));
        assert_eq!(buf.position(), 0);
    }
}

#[test]
fn question_passes_on_the_fault_of_its_name() {
    let mut buf = Buffer::new(vec![0xc0, 0x00, 0, 1, 0, 1]);
    assert_eq!(Question::read(&mut buf), Err(CodecError::InvalidPointer));
    assert_eq!(buf.position(), 0);
}

#[test]
fn question_is_written() {
    let mut buf = Buffer::new(Vec::new());
    let mut table = CompressionTable::new();
    let q = Question { qname: labels_of(&[b"a"]), qtype: 0x0102, qclass: 0x0304 };
    assert_eq!(q.write(&mut buf, &mut table), Ok(()));
    assert_eq!(q.write(&mut buf, &mut table), Ok(()));
    assert_eq!(
        buf.into_bytes(),
        vec![1, b'a', 0, 0x01, 0x02, 0x03, 0x04, 0xc0, 0x00, 0x01, 0x02, 0x03, 0x04]
    );
}

#[test]
fn question_at_fault_is_not_written() {
    let mut buf = Buffer::new(Vec::new());
    let mut table = CompressionTable::new();
    let q = Question { qname: labels_of(&[&[b'x'; 64]]), qtype: 1, qclass: 1 };
    assert_eq!(q.write(&mut buf, &mut table), Err(CodecError::LabelTooLong));
    assert_eq!(buf.len(), 0);
}

fn record_bytes() -> Vec<u8> {
    vec![
        3, b'c', b'o', b'm', 0, // name
        0x00, 0x01, // type
        0x00, 0x01, // class
        0x00, 0x00, 0x0e, 0x10, // time to live
        0x00, 0x04, // length of the data
        93, 184, 216, 34, // data
    ]
}

#[test]
fn record_is_read() {
    let mut bytes = record_bytes();
    bytes.push(0xee);
    let mut buf = Buffer::new(bytes);
    let r = ResourceRecord::read(&mut buf).unwrap();
    assert_eq!(
        r,
        ResourceRecord {
            qname: labels_of(&[b"com"]),
            qtype: 1,
            qclass: 1,
            ttl: 3600,
            rdata: vec![93, 184, 216, 34],
        }
    );
    assert_eq!(r.query_type(), QueryType::A);
    assert_eq!(r.query_class(), QueryClass::INTERNET);
    assert_eq!(buf.position(), 19);
}

#[test]
fn record_is_written() {
    let mut buf = Buffer::new(Vec::new());
    let mut table = CompressionTable::new();
    let r = ResourceRecord {
        qname: labels_of(&[b"com"]),
        qtype: 1,
        qclass: 1,
        ttl: 3600,
        rdata: vec![93, 184, 216, 34],
    };
    assert_eq!(r.write(&mut buf, &mut table), Ok(()));
    assert_eq!(buf.position(), 19);
    assert_eq!(buf.into_bytes(), record_bytes());
}

#[test]
fn record_without_data_is_read_and_written() {
    let bytes = vec![0, 0, 41, 0x10, 0x00, 0, 0, 0, 0, 0, 0];
    let mut buf = Buffer::new(bytes.clone());
    let r = ResourceRecord::read(&mut buf).unwrap();
    assert_eq!(r.rdata, Vec::<u8>::new());
    assert_eq!(r.qclass, 4096);
    assert_eq!(r.query_type(), QueryType::OPT);
    assert_eq!(buf.position(), 11);
    let mut out = Buffer::new(Vec::new());
    let mut table = CompressionTable::new();
    r.write(&mut out, &mut table).unwrap();
    assert_eq!(out.into_bytes(), bytes);
}

#[test]
fn record_cut_short_is_truncated() {
    let whole = record_bytes();
    for cut in 0..whole.len() {
        let mut buf = Buffer::new(whole[..cut].to_vec());
        assert_eq!(ResourceRecord::read(&mut buf), Err(CodecError::TruncatedBuffer));
        assert_eq!(buf.position(), 0);
    }
}

#[test]
fn time_to_live_with_the_top_bit_set_is_read_as_zero() {
    let mut bytes = record_bytes();
    bytes[9] = 0x80;
    let mut buf = Buffer::new(bytes.clone());
    assert_eq!(ResourceRecord::read(&mut buf).unwrap().ttl, 0);
    bytes[9] = 0xff;
    bytes[10] = 0xff;
    bytes[11] = 0xff;
    bytes[12] = 0xff;
    let mut buf = Buffer::new(bytes.clone());
    assert_eq!(ResourceRecord::read(&mut buf).unwrap().ttl, 0);
    bytes[9] = 0x7f;
    let mut buf = Buffer::new(bytes);
    assert_eq!(ResourceRecord::read(&mut buf).unwrap().ttl, 0x7fffffff);
}

#[test]
fn time_to_live_is_written_as_it_is() {
    let mut buf = Buffer::new(Vec::new());
    let mut table = CompressionTable::new();
    let r = ResourceRecord {
        qname: labels_of(&[]),
        qtype: 1,
        qclass: 1,
        ttl: 0x80000001,
        rdata: vec![],
    };
    r.write(&mut buf, &mut table).unwrap();
    assert_eq!(buf.into_bytes(), vec![0, 0, 1, 0, 1, 0x80, 0, 0, 1, 0, 0]);
}

#[test]
fn longest_data_is_written_and_read() {
    let r = ResourceRecord {
        qname: labels_of(&[b"big"]),
        qtype: 16,
        qclass: 1,
        ttl: 1,
        rdata: vec![0x5a; 65535],
    };
    let mut buf = Buffer::new(Vec::new());
    let mut table = CompressionTable::new();
    assert_eq!(r.write(&mut buf, &mut table), Ok(()));
    let bytes = buf.into_bytes();
    assert_eq!(bytes.len(), 5 + 10 + 65535);
    assert_eq!(&bytes[13..15], &[0xff, 0xff]);
    let mut back = Buffer::new(bytes);
    assert_eq!(ResourceRecord::read(&mut back), Ok(r));
}

#[test]
fn data_that_is_too_long_is_refused() {
    let r = ResourceRecord {
        qname: labels_of(&[b"big"]),
        qtype: 16,
        qclass: 1,
        ttl: 1,
        rdata: vec![0; 65536],
    };
    let mut buf = Buffer::new(vec![7]);
    buf.seek(1).unwrap();
    let mut table = CompressionTable::new();
    assert_eq!(r.write(&mut buf, &mut table), Err(CodecError::RdataTooLong));
    assert_eq!(buf.position(), 1);
    // The name was not learnt either.
    let q = Question { qname: labels_of(&[b"big"]), qtype: 1, qclass: 1 };
    q.write(&mut buf, &mut table).unwrap();
    assert_eq!(buf.into_bytes(), vec![7, 3, b'b', b'i', b'g', 0, 0, 1, 0, 1]);
}

#[test]
fn record_names_the_fault_of_its_name_first() {
    let r = ResourceRecord {
        qname: labels_of(&[b""]),
        qtype: 16,
        qclass: 1,
        ttl: 1,
        rdata: vec![0; 65536],
    };
    let mut buf = Buffer::new(Vec::new());
    let mut table = CompressionTable::new();
    assert_eq!(r.write(&mut buf, &mut table), Err(CodecError::EmptyLabel));
}

#[test]
fn query_types_have_their_codes() {
    assert_eq!(QueryType::A.to_u16(), 1);
    assert_eq!(QueryType::NS.to_u16(), 2);
    assert_eq!(QueryType::CNAME.to_u16(), 5);
    assert_eq!(QueryType::SOA.to_u16(), 6);
    assert_eq!(QueryType::PTR.to_u16(), 12);
    assert_eq!(QueryType::MX.to_u16(), 15);
    assert_eq!(QueryType::TXT.to_u16(), 16);
    assert_eq!(QueryType::AAAA.to_u16(), 28);
    assert_eq!(QueryType::SRV.to_u16(), 33);
    assert_eq!(QueryType::OPT.to_u16(), 41);
    assert_eq!(QueryType::HTTPS.to_u16(), 65);
    assert_eq!(QueryType::AXFR.to_u16(), 252);
    assert_eq!(QueryType::URI.to_u16(), 256);
    assert_eq!(QueryType::CAA.to_u16(), 257);
    assert_eq!(QueryType::TA.to_u16(), 32768);
    assert_eq!(QueryType::DLV.to_u16(), 32769);
    assert_eq!(QueryType::Unknown(999).to_u16(), 999);
    assert_eq!(QueryType::from_u16(1), QueryType::A);
    assert_eq!(QueryType::from_u16(28), QueryType::AAAA);
    assert_eq!(QueryType::from_u16(32769), QueryType::DLV);
    assert_eq!(QueryType::from_u16(0), QueryType::Unknown(0));
    assert_eq!(QueryType::from_u16(3), QueryType::Unknown(3));
    assert_eq!(QueryType::from_u16(65535), QueryType::Unknown(65535));
}

#[test]
fn every_code_gives_a_type_with_that_code() {
    let mut named = 0;
    for v in 0..=65535u16 {
        let t = QueryType::from_u16(v);
        assert_eq!(t.to_u16(), v);
        if t != QueryType::Unknown(v) {
            named += 1;
        }
    }
    assert_eq!(named, 50);
}

#[test]
fn query_classes_have_their_codes() {
    assert_eq!(QueryClass::INTERNET.to_u16(), 1);
    assert_eq!(QueryClass::CSNET.to_u16(), 2);
    assert_eq!(QueryClass::CHAOS.to_u16(), 3);
    assert_eq!(QueryClass::HESIOD.to_u16(), 4);
    assert_eq!(QueryClass::NONE.to_u16(), 254);
    assert_eq!(QueryClass::ALLANY.to_u16(), 255);
    assert_eq!(QueryClass::Unknown(77).to_u16(), 77);
    assert_eq!(QueryClass::from_u16(3), QueryClass::CHAOS);
    assert_eq!(QueryClass::from_u16(255), QueryClass::ALLANY);
    assert_eq!(QueryClass::from_u16(0), QueryClass::Unknown(0));
    let mut named = 0;
    for v in 0..=65535u16 {
        let c = QueryClass::from_u16(v);
        assert_eq!(c.to_u16(), v);
        if c != QueryClass::Unknown(v) {
            named += 1;
        }
    }
    assert_eq!(named, 6);
}
