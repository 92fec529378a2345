//! What compression saves where one name is written twice, and what the
//! reader makes of a pointer that does not point back.

use crate::compression::{
    first_known, label_bytes, learn, lemma_label_bytes_grow, name_ok, name_wire, wire_len,
    written_labels, Slot, POINTER_LIMIT,
};
use crate::error::CodecError;
use crate::header::Header;
use crate::name::{parse_name, pointer_target, POINTER_MARK};
use crate::packet::{
    packet_fault, packet_wire, parse_packet, questions_wire, wire_additional, wire_answers,
    wire_authority, wire_questions, PacketView, HEADER_LEN,
};
use crate::record::{question_wire, QuestionView};
use crate::roundtrip::{lemma_round_trip, packet_ok};
use vstd::prelude::*;

verus! {

/// A pointer that does not point before itself is refused, whatever it
/// points to.
pub proof fn lemma_pointer_must_point_back(buf: Seq<u8>, at: int)
    requires
        0 <= at,
        at + 1 < buf.len(),
        buf[at] >= POINTER_MARK,
        pointer_target(buf[at], buf[at + 1]) >= at,
    ensures
        parse_name(buf, at) == Err::<(Seq<Seq<u8>>, int), CodecError>(CodecError::InvalidPointer),
{
}

/// Where no name is known, every label of a name is written out.
pub proof fn lemma_nothing_known(labels: Seq<Seq<u8>>, i: int)
    requires
        0 <= i <= labels.len(),
    ensures
        first_known(labels, Map::<Seq<Seq<u8>>, Slot>::empty(), i) == labels.len(),
    decreases labels.len() - i,
{
    if i < labels.len() {
        lemma_nothing_known(labels, i + 1);
    }
}

/// A name that was written out at an index that fits a pointer, and that
/// ends without a pointer, is known afterwards.
pub proof fn lemma_learnt(labels: Seq<Seq<u8>>, at: int, m: int)
    requires
        1 <= m <= labels.len(),
        0 <= at < POINTER_LIMIT,
    ensures
        learn(labels, at, Map::<Seq<Seq<u8>>, Slot>::empty(), m).contains_key(labels),
    decreases m,
{
    lemma_nothing_known(labels, 0);
    assert(labels.skip(0) =~= labels);
    if m > 1 {
        lemma_learnt(labels, at, m - 1);
    }
}

/// The message that asks two questions about one name.
pub open spec fn asking_twice(
    header: Header,
    name: Seq<Seq<u8>>,
    first: (u16, u16),
    second: (u16, u16),
) -> PacketView {
    PacketView {
        header: Header {
            questions: 2,
            answers: 0,
            authoritative_entries: 0,
            additional_records: 0,
            ..header
        },
        questions: seq![
            QuestionView { qname: name, qtype: first.0, qclass: first.1 },
            QuestionView { qname: name, qtype: second.0, qclass: second.1 },
        ],
        answers: Seq::empty(),
        authority: Seq::empty(),
        additional: Seq::empty(),
    }
}

/// Two questions about one name, which is not the root, written behind a
/// header take the bytes of the name in full, of a pointer, and of two
/// types and classes.
proof fn lemma_two_questions(qs: Seq<QuestionView>, name: Seq<Seq<u8>>)
    requires
        qs.len() == 2,
        qs[0].qname == name,
        qs[1].qname == name,
        name.len() > 0,
    ensures
        questions_wire(
            qs,
            2,
            HEADER_LEN as int,
            Map::<Seq<Seq<u8>>, Slot>::empty(),
        ).bytes.len() == wire_len(name) + 4 + 2 + 4,
{
    let empty = Map::<Seq<Seq<u8>>, Slot>::empty();
    let n = name.len() as int;
    let none = questions_wire(qs, 0, HEADER_LEN as int, empty);
    let one = questions_wire(qs, 1, HEADER_LEN as int, empty);
    let two = questions_wire(qs, 2, HEADER_LEN as int, empty);
    lemma_nothing_known(name, 0);
    assert(none.bytes.len() == 0 && none.known == empty);
    assert(name_wire(name, empty).len() == wire_len(name));
    assert(question_wire(qs[0], empty).len() == wire_len(name) + 4);
    assert(one.bytes == none.bytes + question_wire(qs[0], none.known));
    assert(one.bytes.len() == wire_len(name) + 4);
    assert(one.known == learn(name, HEADER_LEN as int, empty, n));
    lemma_learnt(name, HEADER_LEN as int, n);
    assert(name.skip(0) =~= name);
    assert(written_labels(name, one.known) == 0);
    assert(name_wire(name, one.known).len() == 2);
    assert(question_wire(qs[1], one.known).len() == 2 + 4);
    assert(two.bytes == one.bytes + question_wire(qs[1], one.known));
}

/// A name that is not the root takes at least three bytes in full.
proof fn lemma_name_takes_three(name: Seq<Seq<u8>>)
    requires
        name_ok(name),
        name.len() > 0,
    ensures
        wire_len(name) >= 3,
{
    lemma_label_bytes_grow(name, 1, name.len() as int);
    assert(label_bytes(name, 0).len() == 0);
    assert(label_bytes(name, 1).len() == 1 + name[0].len());
}

/// The bytes of a message without records are those of its header and of
/// its questions.
proof fn lemma_questions_only(p: PacketView)
    requires
        p.answers.len() == 0,
        p.authority.len() == 0,
        p.additional.len() == 0,
    ensures
        packet_wire(p).len() == HEADER_LEN + wire_questions(p).bytes.len(),
{
    assert(wire_answers(p).bytes.len() == 0);
    assert(wire_authority(p).bytes.len() == 0);
    assert(wire_additional(p).bytes.len() == 0);
}

/// A message that asks two questions about one name, which is not the
/// root, holds the name once and a pointer of two bytes in its place the
/// second time. That is less than the name takes twice, and both questions
/// are read again with the name in full.
pub proof fn lemma_name_written_once(
    header: Header,
    name: Seq<Seq<u8>>,
    first: (u16, u16),
    second: (u16, u16),
)
    requires
        header.wf(),
        name_ok(name),
        name.len() > 0,
    ensures
        packet_fault(asking_twice(header, name, first, second)) is None,
        packet_wire(asking_twice(header, name, first, second)).len() == HEADER_LEN + (wire_len(
            name,
        ) + 4) + (2 + 4),
        packet_wire(asking_twice(header, name, first, second)).len() < HEADER_LEN + 2 * (wire_len(
            name,
        ) + 4),
        parse_packet(packet_wire(asking_twice(header, name, first, second))) == Ok::<
            (PacketView, int),
            CodecError,
        >(
            (
                asking_twice(header, name, first, second),
                packet_wire(asking_twice(header, name, first, second)).len() as int,
            ),
        ),
{
    let p = asking_twice(header, name, first, second);
    assert(packet_ok(p));
    lemma_round_trip(p);
    lemma_questions_only(p);
    lemma_two_questions(p.questions, name);
    lemma_name_takes_three(name);
}

} // verus!
