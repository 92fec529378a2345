//! What a decoder makes of the beginning of a buffer: the same as of the
//! whole buffer, unless it runs into the end.

use crate::buffer::{be16, be32};
use crate::error::CodecError;
use crate::header::Header;
use crate::name::parse_name;
use crate::packet::{
    packet_wire, parse_packet, parse_questions, parse_records, PacketView, HEADER_LEN,
};
use crate::record::{parse_question, parse_record, QuestionView, RecordView};
use crate::roundtrip::{
    begins, lemma_begins_index, lemma_begins_range, lemma_parse_name_bounds,
    lemma_parse_name_extends, lemma_round_trip, packet_ok,
};
use vstd::prelude::*;

verus! {

/// A question that could be read, or was refused for anything but the end
/// of the buffer, is read in the same way from any buffer that begins with
/// this one.
pub proof fn lemma_parse_question_extends(short: Seq<u8>, long: Seq<u8>, at: int)
    requires
        begins(long, short),
        parse_question(short, at) != Err::<(QuestionView, int), CodecError>(
            CodecError::TruncatedBuffer,
        ),
    ensures
        parse_question(long, at) == parse_question(short, at),
{
    lemma_parse_name_extends(short, long, at, 0, 0);
    match parse_name(short, at) {
        Ok((labels, next)) => {
            lemma_parse_name_bounds(short, at, 0, 0);
            lemma_begins_index(long, short, next);
            lemma_begins_index(long, short, next + 1);
            lemma_begins_index(long, short, next + 2);
            lemma_begins_index(long, short, next + 3);
        },
        Err(e) => {},
    }
}

/// A record that could be read, or was refused for anything but the end of
/// the buffer, is read in the same way from any buffer that begins with
/// this one.
pub proof fn lemma_parse_record_extends(short: Seq<u8>, long: Seq<u8>, at: int)
    requires
        begins(long, short),
        parse_record(short, at) != Err::<(RecordView, int), CodecError>(
            CodecError::TruncatedBuffer,
        ),
    ensures
        parse_record(long, at) == parse_record(short, at),
{
    lemma_parse_name_extends(short, long, at, 0, 0);
    match parse_name(short, at) {
        Ok((labels, next)) => {
            lemma_parse_name_bounds(short, at, 0, 0);
            assert forall|i: int| next <= i < next + 10 implies long[i] == short[i] by {
                lemma_begins_index(long, short, i);
            }
            assert(be16(long, next) == be16(short, next));
            assert(be16(long, next + 2) == be16(short, next + 2));
            assert(be32(long, next + 4) == be32(short, next + 4));
            assert(be16(long, next + 8) == be16(short, next + 8));
            lemma_begins_range(long, short, next + 10, next + 10 + be16(short, next + 8));
        },
        Err(e) => {},
    }
}

/// Questions that could be read, or were refused for anything but the end
/// of the buffer, are read in the same way from any buffer that begins
/// with this one.
pub proof fn lemma_parse_questions_extends(short: Seq<u8>, long: Seq<u8>, at: int, n: int)
    requires
        begins(long, short),
        parse_questions(short, at, n) != Err::<(Seq<QuestionView>, int), CodecError>(
            CodecError::TruncatedBuffer,
        ),
    ensures
        parse_questions(long, at, n) == parse_questions(short, at, n),
    decreases n,
{
    if n > 0 {
        lemma_parse_questions_extends(short, long, at, n - 1);
        match parse_questions(short, at, n - 1) {
            Ok((found, mid)) => {
                lemma_parse_question_extends(short, long, mid);
            },
            Err(e) => {},
        }
    }
}

/// Records that could be read, or were refused for anything but the end of
/// the buffer, are read in the same way from any buffer that begins with
/// this one.
pub proof fn lemma_parse_records_extends(short: Seq<u8>, long: Seq<u8>, at: int, n: int)
    requires
        begins(long, short),
        parse_records(short, at, n) != Err::<(Seq<RecordView>, int), CodecError>(
            CodecError::TruncatedBuffer,
        ),
    ensures
        parse_records(long, at, n) == parse_records(short, at, n),
    decreases n,
{
    if n > 0 {
        lemma_parse_records_extends(short, long, at, n - 1);
        match parse_records(short, at, n - 1) {
            Ok((found, mid)) => {
                lemma_parse_record_extends(short, long, mid);
            },
            Err(e) => {},
        }
    }
}

/// The header of a buffer is the header of its first twelve bytes.
pub proof fn lemma_header_extends(short: Seq<u8>, long: Seq<u8>)
    requires
        begins(long, short),
        short.len() >= HEADER_LEN,
    ensures
        Header::of(long) == Header::of(short),
{
    assert forall|i: int| 0 <= i < 12 implies long[i] == short[i] by {
        lemma_begins_index(long, short, i);
    }
}

/// A message that could be decoded from the beginning of a buffer, or was
/// refused there for anything but the end of the buffer, is decoded in the
/// same way from the whole buffer.
pub proof fn lemma_parse_packet_extends(short: Seq<u8>, long: Seq<u8>)
    requires
        begins(long, short),
        parse_packet(short) != Err::<(PacketView, int), CodecError>(CodecError::TruncatedBuffer),
    ensures
        parse_packet(long) == parse_packet(short),
{
    lemma_header_extends(short, long);
    let header = Header::of(short);
    lemma_parse_questions_extends(short, long, HEADER_LEN as int, header.questions as int);
    match parse_questions(short, HEADER_LEN as int, header.questions as int) {
        Ok((questions, a)) => {
            lemma_parse_records_extends(short, long, a, header.answers as int);
            match parse_records(short, a, header.answers as int) {
                Ok((answers, b)) => {
                    lemma_parse_records_extends(
                        short,
                        long,
                        b,
                        header.authoritative_entries as int,
                    );
                    match parse_records(short, b, header.authoritative_entries as int) {
                        Ok((authority, c)) => {
                            lemma_parse_records_extends(
                                short,
                                long,
                                c,
                                header.additional_records as int,
                            );
                        },
                        Err(e) => {},
                    }
                },
                Err(e) => {},
            }
        },
        Err(e) => {},
    }
}

/// Questions that were read end inside the buffer, and not before the
/// index from which they were read.
pub proof fn lemma_parse_questions_bounds(buf: Seq<u8>, at: int, n: int)
    requires
        0 <= at <= buf.len(),
        parse_questions(buf, at, n) is Ok,
    ensures
        at <= parse_questions(buf, at, n)->Ok_0.1 <= buf.len(),
    decreases n,
{
    if n > 0 {
        lemma_parse_questions_bounds(buf, at, n - 1);
        let mid = parse_questions(buf, at, n - 1)->Ok_0.1;
        lemma_parse_name_bounds(buf, mid, 0, 0);
    }
}

/// Records that were read end inside the buffer, and not before the index
/// from which they were read.
pub proof fn lemma_parse_records_bounds(buf: Seq<u8>, at: int, n: int)
    requires
        0 <= at <= buf.len(),
        parse_records(buf, at, n) is Ok,
    ensures
        at <= parse_records(buf, at, n)->Ok_0.1 <= buf.len(),
    decreases n,
{
    if n > 0 {
        lemma_parse_records_bounds(buf, at, n - 1);
        let mid = parse_records(buf, at, n - 1)->Ok_0.1;
        lemma_parse_name_bounds(buf, mid, 0, 0);
    }
}

/// The decoding of a message ends inside the buffer, behind the header.
pub proof fn lemma_parse_packet_bounds(buf: Seq<u8>)
    requires
        parse_packet(buf) is Ok,
    ensures
        HEADER_LEN <= parse_packet(buf)->Ok_0.1 <= buf.len(),
{
    let header = Header::of(buf);
    lemma_parse_questions_bounds(buf, HEADER_LEN as int, header.questions as int);
    let a = parse_questions(buf, HEADER_LEN as int, header.questions as int)->Ok_0.1;
    lemma_parse_records_bounds(buf, a, header.answers as int);
    let b = parse_records(buf, a, header.answers as int)->Ok_0.1;
    lemma_parse_records_bounds(buf, b, header.authoritative_entries as int);
    let c = parse_records(buf, b, header.authoritative_entries as int)->Ok_0.1;
    lemma_parse_records_bounds(buf, c, header.additional_records as int);
}

/// Where a message is decoded from a whole buffer and the decoding ends
/// where the buffer ends, every shorter beginning of the buffer is refused
/// as truncated.
pub proof fn lemma_cut_is_truncated(whole: Seq<u8>, short: Seq<u8>)
    requires
        begins(whole, short),
        short.len() < whole.len(),
        parse_packet(whole) is Ok,
        parse_packet(whole)->Ok_0.1 == whole.len(),
    ensures
        parse_packet(short) == Err::<(PacketView, int), CodecError>(CodecError::TruncatedBuffer),
{
    if parse_packet(short) != Err::<(PacketView, int), CodecError>(CodecError::TruncatedBuffer) {
        lemma_parse_packet_extends(short, whole);
        lemma_parse_packet_bounds(short);
    }
}

/// The bytes of a well-formed message, cut off anywhere before their end,
/// are refused as truncated.
pub proof fn lemma_truncation(p: PacketView, cut: int)
    requires
        packet_ok(p),
        0 <= cut < packet_wire(p).len(),
    ensures
        parse_packet(packet_wire(p).take(cut)) == Err::<(PacketView, int), CodecError>(
            CodecError::TruncatedBuffer,
        ),
{
    let whole = packet_wire(p);
    let short = whole.take(cut);
    lemma_round_trip(p);
    assert(begins(whole, short)) by {
        assert(whole.subrange(0, short.len() as int) =~= short);
    }
    lemma_cut_is_truncated(whole, short);
}

} // verus!
