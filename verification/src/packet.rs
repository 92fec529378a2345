//! Whole messages: a header, the questions, and the answer, authority and
//! additional records, decoded from bytes and encoded into them.

use crate::buffer::{lemma_overlay_at_end, lemma_overlay_twice, overlay, Buffer};
use crate::compression::{known_after, name_fault, CompressionTable, Known};
use crate::error::CodecError;
use crate::header::Header;
use crate::record::{
    parse_question, parse_record, question_wire, record_fault, record_wire, Question,
    QuestionView, RecordView, ResourceRecord,
};
use core::convert::TryFrom;
use vstd::prelude::*;
use vstd::std_specs::convert::TryFromSpecImpl;

verus! {

/// How many bytes the header takes.
pub const HEADER_LEN: usize = 12;

/// The most entries that one section holds: their number stands in sixteen
/// bits.
pub const MAX_COUNT: usize = 65535;

/// A message. On the wire the four counts of the header are the lengths of
/// the four lists.
#[derive(Debug, Clone, PartialEq, Eq)]
pub struct Packet {
    pub header: Header,
    pub questions: Vec<Question>,
    pub answers: Vec<ResourceRecord>,
    pub authority: Vec<ResourceRecord>,
    pub additional: Vec<ResourceRecord>,
}

/// What a `Packet` is.
pub struct PacketView {
    pub header: Header,
    pub questions: Seq<QuestionView>,
    pub answers: Seq<RecordView>,
    pub authority: Seq<RecordView>,
    pub additional: Seq<RecordView>,
}

/// The questions of a list as what they are.
pub open spec fn question_views(questions: Seq<Question>) -> Seq<QuestionView> {
    questions.map_values(|q: Question| q@)
}

/// The records of a list as what they are.
pub open spec fn record_views(records: Seq<ResourceRecord>) -> Seq<RecordView> {
    records.map_values(|r: ResourceRecord| r@)
}

impl View for Packet {
    type V = PacketView;

    open spec fn view(&self) -> PacketView {
        PacketView {
            header: self.header,
            questions: question_views(self.questions@),
            answers: record_views(self.answers@),
            authority: record_views(self.authority@),
            additional: record_views(self.additional@),
        }
    }
}

/// Reads `n` questions one behind the other from index `at` of `buf`.
/// Gives them in their order and the index behind the last.
pub open spec fn parse_questions(buf: Seq<u8>, at: int, n: int) -> Result<
    (Seq<QuestionView>, int),
    CodecError,
>
    decreases n,
{
    if n <= 0 {
        Ok((Seq::empty(), at))
    } else {
        match parse_questions(buf, at, n - 1) {
            Err(e) => Err(e),
            Ok((found, mid)) => match parse_question(buf, mid) {
                Err(e) => Err(e),
                Ok((q, next)) => Ok((found.push(q), next)),
            },
        }
    }
}

/// Reads `n` records one behind the other from index `at` of `buf`. Gives
/// them in their order and the index behind the last.
pub open spec fn parse_records(buf: Seq<u8>, at: int, n: int) -> Result<
    (Seq<RecordView>, int),
    CodecError,
>
    decreases n,
{
    if n <= 0 {
        Ok((Seq::empty(), at))
    } else {
        match parse_records(buf, at, n - 1) {
            Err(e) => Err(e),
            Ok((found, mid)) => match parse_record(buf, mid) {
                Err(e) => Err(e),
                Ok((r, next)) => Ok((found.push(r), next)),
            },
        }
    }
}

/// Reads a message from `buf`: the header, then as many questions, answer
/// records, authority records and additional records as the header counts,
/// in that order. Gives the message and the index behind its last record;
/// what follows there is not looked at.
pub open spec fn parse_packet(buf: Seq<u8>) -> Result<(PacketView, int), CodecError> {
    if buf.len() < HEADER_LEN {
        Err(CodecError::TruncatedBuffer)
    } else {
        let header = Header::of(buf);
        match parse_questions(buf, HEADER_LEN as int, header.questions as int) {
            Err(e) => Err(e),
            Ok((questions, a)) => match parse_records(buf, a, header.answers as int) {
                Err(e) => Err(e),
                Ok((answers, b)) => match parse_records(
                    buf,
                    b,
                    header.authoritative_entries as int,
                ) {
                    Err(e) => Err(e),
                    Ok((authority, c)) => match parse_records(
                        buf,
                        c,
                        header.additional_records as int,
                    ) {
                        Err(e) => Err(e),
                        Ok((additional, end)) => Ok(
                            (PacketView { header, questions, answers, authority, additional }, end),
                        ),
                    },
                },
            },
        }
    }
}

/// What writing a section gives: its bytes and the names known after it.
pub struct Emitted {
    pub bytes: Seq<u8>,
    pub known: Known,
}

/// The first `n` of the questions `qs`, written one behind the other from
/// index `at` on when `known` holds the names that stand before them.
pub open spec fn questions_wire(qs: Seq<QuestionView>, n: int, at: int, known: Known) -> Emitted
    decreases n,
{
    if n <= 0 {
        Emitted { bytes: Seq::empty(), known }
    } else {
        let before = questions_wire(qs, n - 1, at, known);
        Emitted {
            bytes: before.bytes + question_wire(qs[n - 1], before.known),
            known: known_after(qs[n - 1].qname, at + before.bytes.len(), before.known),
        }
    }
}

/// The first `n` of the records `rs`, written one behind the other from
/// index `at` on when `known` holds the names that stand before them.
pub open spec fn records_wire(rs: Seq<RecordView>, n: int, at: int, known: Known) -> Emitted
    decreases n,
{
    if n <= 0 {
        Emitted { bytes: Seq::empty(), known }
    } else {
        let before = records_wire(rs, n - 1, at, known);
        Emitted {
            bytes: before.bytes + record_wire(rs[n - 1], before.known),
            known: known_after(rs[n - 1].qname, at + before.bytes.len(), before.known),
        }
    }
}

/// What is wrong with the first of the first `n` questions of `qs` that
/// the wire cannot hold.
pub open spec fn questions_fault(qs: Seq<QuestionView>, n: int) -> Option<CodecError>
    decreases n,
{
    if n <= 0 {
        None
    } else {
        match questions_fault(qs, n - 1) {
            Some(e) => Some(e),
            None => name_fault(qs[n - 1].qname),
        }
    }
}

/// What is wrong with the first of the first `n` records of `rs` that the
/// wire cannot hold.
pub open spec fn records_fault(rs: Seq<RecordView>, n: int) -> Option<CodecError>
    decreases n,
{
    if n <= 0 {
        None
    } else {
        match records_fault(rs, n - 1) {
            Some(e) => Some(e),
            None => record_fault(rs[n - 1]),
        }
    }
}

/// What is wrong with a message that the wire cannot hold: the first
/// question or record at fault, in the order in which they are written, or
/// else a list of more than `MAX_COUNT` entries.
pub open spec fn packet_fault(p: PacketView) -> Option<CodecError> {
    match questions_fault(p.questions, p.questions.len() as int) {
        Some(e) => Some(e),
        None => match records_fault(p.answers, p.answers.len() as int) {
            Some(e) => Some(e),
            None => match records_fault(p.authority, p.authority.len() as int) {
                Some(e) => Some(e),
                None => match records_fault(p.additional, p.additional.len() as int) {
                    Some(e) => Some(e),
                    None => if p.questions.len() > MAX_COUNT || p.answers.len() > MAX_COUNT
                        || p.authority.len() > MAX_COUNT || p.additional.len() > MAX_COUNT {
                        Some(CodecError::TooManyRecords)
                    } else {
                        None
                    },
                },
            },
        }
    }
}

/// The header of `p` with its four counts set to the lengths of the lists.
pub open spec fn counted_header(p: PacketView) -> Header {
    Header {
        questions: p.questions.len() as u16,
        answers: p.answers.len() as u16,
        authoritative_entries: p.authority.len() as u16,
        additional_records: p.additional.len() as u16,
        ..p.header
    }
}

/// The questions of `p` as they are written behind the header.
pub open spec fn wire_questions(p: PacketView) -> Emitted {
    questions_wire(p.questions, p.questions.len() as int, HEADER_LEN as int, Map::empty())
}

/// The answer records of `p` as they are written behind the questions.
pub open spec fn wire_answers(p: PacketView) -> Emitted {
    let q = wire_questions(p);
    records_wire(p.answers, p.answers.len() as int, HEADER_LEN + q.bytes.len(), q.known)
}

/// The authority records of `p` as they are written behind the answers.
pub open spec fn wire_authority(p: PacketView) -> Emitted {
    let q = wire_questions(p);
    let a = wire_answers(p);
    records_wire(
        p.authority,
        p.authority.len() as int,
        HEADER_LEN + q.bytes.len() + a.bytes.len(),
        a.known,
    )
}

/// The additional records of `p` as they are written behind the authority
/// records.
pub open spec fn wire_additional(p: PacketView) -> Emitted {
    let q = wire_questions(p);
    let a = wire_answers(p);
    let n = wire_authority(p);
    records_wire(
        p.additional,
        p.additional.len() as int,
        HEADER_LEN + q.bytes.len() + a.bytes.len() + n.bytes.len(),
        n.known,
    )
}

/// The bytes of a message: the header with its counts taken from the
/// lists, then the questions and the three lists of records, all sharing
/// the names written before them.
pub open spec fn packet_wire(p: PacketView) -> Seq<u8> {
    counted_header(p).wire() + wire_questions(p).bytes + wire_answers(p).bytes + wire_authority(
        p,
    ).bytes + wire_additional(p).bytes
}

/// A fault among the first questions is the fault of any longer run.
pub proof fn lemma_questions_fault_stays(qs: Seq<QuestionView>, i: int, n: int)
    requires
        0 <= i <= n,
        questions_fault(qs, i) is Some,
    ensures
        questions_fault(qs, n) == questions_fault(qs, i),
    decreases n - i,
{
    if i < n {
        lemma_questions_fault_stays(qs, i, n - 1);
    }
}

/// A fault among the first records is the fault of any longer run.
pub proof fn lemma_records_fault_stays(rs: Seq<RecordView>, i: int, n: int)
    requires
        0 <= i <= n,
        records_fault(rs, i) is Some,
    ensures
        records_fault(rs, n) == records_fault(rs, i),
    decreases n - i,
{
    if i < n {
        lemma_records_fault_stays(rs, i, n - 1);
    }
}

/// Where the first questions cannot be read, no longer run can.
pub proof fn lemma_parse_questions_fails(buf: Seq<u8>, at: int, i: int, n: int)
    requires
        0 <= i <= n,
        parse_questions(buf, at, i) is Err,
    ensures
        parse_questions(buf, at, n) is Err,
        parse_questions(buf, at, n)->Err_0 == parse_questions(buf, at, i)->Err_0,
    decreases n - i,
{
    if i < n {
        lemma_parse_questions_fails(buf, at, i, n - 1);
    }
}

/// Where the first records cannot be read, no longer run can.
pub proof fn lemma_parse_records_fails(buf: Seq<u8>, at: int, i: int, n: int)
    requires
        0 <= i <= n,
        parse_records(buf, at, i) is Err,
    ensures
        parse_records(buf, at, n) is Err,
        parse_records(buf, at, n)->Err_0 == parse_records(buf, at, i)->Err_0,
    decreases n - i,
{
    if i < n {
        lemma_parse_records_fails(buf, at, i, n - 1);
    }
}

/// Reads `count` questions from the cursor on.
fn read_questions(buf: &mut Buffer, count: u16) -> (r: Result<Vec<Question>, CodecError>)
    ensures
        final(buf)@.bytes == old(buf)@.bytes,
        match parse_questions(old(buf)@.bytes, old(buf)@.position, count as int) {
            Ok((found, next)) => r is Ok && question_views(r->Ok_0@) == found
                && final(buf)@.position == next,
            Err(e) => r is Err && r->Err_0 == e,
        },
{
    let ghost bytes = buf@.bytes;
    let ghost start = buf@.position;
    let mut found: Vec<Question> = Vec::with_capacity(count as usize);
    let mut i: u16 = 0;
    assert(question_views(found@) =~= Seq::<QuestionView>::empty());
    while i < count
        invariant
            i <= count,
            buf@.bytes == bytes,
            bytes == old(buf)@.bytes,
            start == old(buf)@.position,
            parse_questions(bytes, start, i as int) == Ok::<(Seq<QuestionView>, int), CodecError>(
                (question_views(found@), buf@.position),
            ),
        decreases count - i,
    {
        match Question::read(buf) {
            Ok(q) => {
                proof {
                    assert(question_views(found@.push(q)) =~= question_views(found@).push(q@));
                }
                found.push(q);
            },
            Err(e) => {
                proof {
                    lemma_parse_questions_fails(bytes, start, i + 1, count as int);
                }
                return Err(e);
            },
        }
        i += 1;
    }
    Ok(found)
}

/// Reads `count` records from the cursor on.
fn read_records(buf: &mut Buffer, count: u16) -> (r: Result<Vec<ResourceRecord>, CodecError>)
    ensures
        final(buf)@.bytes == old(buf)@.bytes,
        match parse_records(old(buf)@.bytes, old(buf)@.position, count as int) {
            Ok((found, next)) => r is Ok && record_views(r->Ok_0@) == found
                && final(buf)@.position == next,
            Err(e) => r is Err && r->Err_0 == e,
        },
{
    let ghost bytes = buf@.bytes;
    let ghost start = buf@.position;
    let mut found: Vec<ResourceRecord> = Vec::with_capacity(count as usize);
    let mut i: u16 = 0;
    assert(record_views(found@) =~= Seq::<RecordView>::empty());
    while i < count
        invariant
            i <= count,
            buf@.bytes == bytes,
            bytes == old(buf)@.bytes,
            start == old(buf)@.position,
            parse_records(bytes, start, i as int) == Ok::<(Seq<RecordView>, int), CodecError>(
                (record_views(found@), buf@.position),
            ),
        decreases count - i,
    {
        match ResourceRecord::read(buf) {
            Ok(rr) => {
                proof {
                    assert(record_views(found@.push(rr)) =~= record_views(found@).push(rr@));
                }
                found.push(rr);
            },
            Err(e) => {
                proof {
                    lemma_parse_records_fails(bytes, start, i + 1, count as int);
                }
                return Err(e);
            },
        }
        i += 1;
    }
    Ok(found)
}

/// Writes the questions one behind the other from the cursor on.
fn write_questions(
    buf: &mut Buffer,
    table: &mut CompressionTable,
    questions: &Vec<Question>,
) -> (r: Result<(), CodecError>)
    ensures
        match questions_fault(question_views(questions@), questions@.len() as int) {
            Some(e) => r == Err::<(), CodecError>(e),
            None => {
                let done = questions_wire(
                    question_views(questions@),
                    questions@.len() as int,
                    old(buf)@.position,
                    old(table)@,
                );
                r == Ok::<(), CodecError>(()) && final(buf)@.bytes == overlay(
                    old(buf)@.bytes,
                    old(buf)@.position,
                    done.bytes,
                ) && final(buf)@.position == old(buf)@.position + done.bytes.len()
                    && final(table)@ == done.known
            },
        },
{
    let ghost base = buf@.bytes;
    let ghost known = table@;
    let ghost views = question_views(questions@);
    let start: usize = buf.position();
    let mut i: usize = 0;
    proof {
        assert(overlay(base, start as int, Seq::<u8>::empty()) =~= base);
    }
    while i < questions.len()
        invariant
            i <= questions@.len(),
            start <= base.len(),
            views == question_views(questions@),
            questions_fault(views, i as int) is None,
            buf@.bytes == overlay(
                base,
                start as int,
                questions_wire(views, i as int, start as int, known).bytes,
            ),
            buf@.position == start + questions_wire(
                views,
                i as int,
                start as int,
                known,
            ).bytes.len(),
            table@ == questions_wire(views, i as int, start as int, known).known,
        decreases questions@.len() - i,
    {
        let ghost before = questions_wire(views, i as int, start as int, known);
        assert(views[i as int] == questions@[i as int]@);
        match questions[i].write(buf, table) {
            Ok(()) => {
                proof {
                    lemma_overlay_twice(
                        base,
                        start as int,
                        before.bytes,
                        question_wire(views[i as int], before.known),
                    );
                }
            },
            Err(e) => {
                proof {
                    lemma_questions_fault_stays(views, i + 1, questions@.len() as int);
                }
                return Err(e);
            },
        }
        i += 1;
    }
    Ok(())
}

/// Writes the records one behind the other from the cursor on.
fn write_records(
    buf: &mut Buffer,
    table: &mut CompressionTable,
    records: &Vec<ResourceRecord>,
) -> (r: Result<(), CodecError>)
    ensures
        match records_fault(record_views(records@), records@.len() as int) {
            Some(e) => r == Err::<(), CodecError>(e),
            None => {
                let done = records_wire(
                    record_views(records@),
                    records@.len() as int,
                    old(buf)@.position,
                    old(table)@,
                );
                r == Ok::<(), CodecError>(()) && final(buf)@.bytes == overlay(
                    old(buf)@.bytes,
                    old(buf)@.position,
                    done.bytes,
                ) && final(buf)@.position == old(buf)@.position + done.bytes.len()
                    && final(table)@ == done.known
            },
        },
{
    let ghost base = buf@.bytes;
    let ghost known = table@;
    let ghost views = record_views(records@);
    let start: usize = buf.position();
    let mut i: usize = 0;
    proof {
        assert(overlay(base, start as int, Seq::<u8>::empty()) =~= base);
    }
    while i < records.len()
        invariant
            i <= records@.len(),
            start <= base.len(),
            views == record_views(records@),
            records_fault(views, i as int) is None,
            buf@.bytes == overlay(
                base,
                start as int,
                records_wire(views, i as int, start as int, known).bytes,
            ),
            buf@.position == start + records_wire(
                views,
                i as int,
                start as int,
                known,
            ).bytes.len(),
            table@ == records_wire(views, i as int, start as int, known).known,
        decreases records@.len() - i,
    {
        let ghost before = records_wire(views, i as int, start as int, known);
        assert(views[i as int] == records@[i as int]@);
        match records[i].write(buf, table) {
            Ok(()) => {
                proof {
                    lemma_overlay_twice(
                        base,
                        start as int,
                        before.bytes,
                        record_wire(views[i as int], before.known),
                    );
                }
            },
            Err(e) => {
                proof {
                    lemma_records_fault_stays(views, i + 1, records@.len() as int);
                }
                return Err(e);
            },
        }
        i += 1;
    }
    Ok(())
}

impl Packet {
    /// A message with the given header and no question or record yet.
    pub fn new(header: Header) -> (r: Packet)
        ensures
            r.header == header,
            r.questions@.len() == 0,
            r.answers@.len() == 0,
            r.authority@.len() == 0,
            r.additional@.len() == 0,
    {
        let questions: Vec<Question> = Vec::with_capacity(header.questions as usize);
        let answers: Vec<ResourceRecord> = Vec::with_capacity(header.answers as usize);
        let authority: Vec<ResourceRecord> = Vec::with_capacity(
            header.authoritative_entries as usize,
        );
        let additional: Vec<ResourceRecord> = Vec::with_capacity(
            header.additional_records as usize,
        );
        Packet { header, answers, questions, authority, additional }
    }
}

impl TryFromSpecImpl<Vec<u8>> for Packet {
    /// A packet holds vectors, and a contract speaks of what they hold:
    /// `try_from` states the decoding over the views.
    open spec fn obeys_try_from_spec() -> bool {
        false
    }

    open spec fn try_from_spec(buf: Vec<u8>) -> Result<Packet, CodecError> {
        arbitrary()
    }
}

impl TryFrom<Vec<u8>> for Packet {
    type Error = CodecError;

    /// Decodes the message that `buf` holds. Whatever cannot be read makes
    /// the whole decoding fail with its error; bytes behind the last record
    /// are left alone.
    fn try_from(buf: Vec<u8>) -> (r: Result<Packet, CodecError>)
        ensures
            match parse_packet(buf@) {
                Ok((p, end)) => r is Ok && r->Ok_0@ == p,
                Err(e) => r is Err && r->Err_0 == e,
            },
    {
        let header = match Header::try_from(buf.as_slice()) {
            Ok(header) => header,
            Err(e) => {
                return Err(e);
            },
        };
        let mut reader = Buffer::new(buf);
        match reader.seek(HEADER_LEN) {
            Ok(()) => {},
            Err(e) => {
                return Err(e);
            },
        }
        let mut packet = Packet::new(header);
        packet.questions = match read_questions(&mut reader, header.questions) {
            Ok(found) => found,
            Err(e) => {
                return Err(e);
            },
        };
        packet.answers = match read_records(&mut reader, header.answers) {
            Ok(found) => found,
            Err(e) => {
                return Err(e);
            },
        };
        packet.authority = match read_records(&mut reader, header.authoritative_entries) {
            Ok(found) => found,
            Err(e) => {
                return Err(e);
            },
        };
        packet.additional = match read_records(&mut reader, header.additional_records) {
            Ok(found) => found,
            Err(e) => {
                return Err(e);
            },
        };
        Ok(packet)
    }
}

/// Decodes the message that `bytes` holds.
pub fn decode_message(bytes: Vec<u8>) -> (r: Result<Packet, CodecError>)
    ensures
        match parse_packet(bytes@) {
            Ok((p, end)) => r is Ok && r->Ok_0@ == p,
            Err(e) => r is Err && r->Err_0 == e,
        },
{
    Packet::try_from(bytes)
}

/// Encodes `message`. The counts of the header are taken from the lists,
/// whatever the header of `message` holds. The questions and records are
/// written first and the counts are looked at last, so a question or record
/// at fault is named before a list that is too long.
pub fn encode_message(message: &Packet) -> (r: Result<Vec<u8>, CodecError>)
    ensures
        match packet_fault(message@) {
            Some(e) => r is Err && r->Err_0 == e,
            None => r is Ok && r->Ok_0@ == packet_wire(message@),
        },
{
    let ghost p = message@;
    let mut buf = Buffer::new(Vec::new());
    let blank: [u8; 12] = [0, 0, 0, 0, 0, 0, 0, 0, 0, 0, 0, 0];
    buf.write_bytes(&blank);
    let ghost head = blank@;
    proof {
        assert(buf@.bytes =~= head);
    }
    let mut table = CompressionTable::new();
    match write_questions(&mut buf, &mut table, &message.questions) {
        Ok(()) => {},
        Err(e) => {
            return Err(e);
        },
    }
    let ghost q = wire_questions(p).bytes;
    match write_records(&mut buf, &mut table, &message.answers) {
        Ok(()) => {},
        Err(e) => {
            return Err(e);
        },
    }
    let ghost a = wire_answers(p).bytes;
    assert(buf@.bytes == overlay(head, 12, q + a)) by {
        lemma_overlay_twice(head, 12, q, a);
    }
    match write_records(&mut buf, &mut table, &message.authority) {
        Ok(()) => {},
        Err(e) => {
            return Err(e);
        },
    }
    let ghost n = wire_authority(p).bytes;
    assert(buf@.bytes == overlay(head, 12, q + a + n)) by {
        lemma_overlay_twice(head, 12, q + a, n);
    }
    match write_records(&mut buf, &mut table, &message.additional) {
        Ok(()) => {},
        Err(e) => {
            return Err(e);
        },
    }
    let ghost d = wire_additional(p).bytes;
    assert(buf@.bytes == head + (q + a + n + d)) by {
        lemma_overlay_twice(head, 12, q + a + n, d);
        lemma_overlay_at_end(head, q + a + n + d);
    }
    if message.questions.len() > MAX_COUNT || message.answers.len() > MAX_COUNT
        || message.authority.len() > MAX_COUNT || message.additional.len() > MAX_COUNT {
        return Err(CodecError::TooManyRecords);
    }
    let header = Header {
        id: message.header.id,
        is_response: message.header.is_response,
        opcode: message.header.opcode,
        is_authoritative_answer: message.header.is_authoritative_answer,
        is_truncated_message: message.header.is_truncated_message,
        is_recursion_desired: message.header.is_recursion_desired,
        is_recursion_available: message.header.is_recursion_available,
        z: message.header.z,
        response_code: message.header.response_code,
        questions: message.questions.len() as u16,
        answers: message.answers.len() as u16,
        authoritative_entries: message.authority.len() as u16,
        additional_records: message.additional.len() as u16,
    };
    assert(header == counted_header(p));
    match buf.seek(0) {
        Ok(()) => {},
        Err(e) => {
            return Err(e);
        },
    }
    let packed: [u8; 12] = header.encode();
    buf.write_bytes(&packed);
    proof {
        assert(overlay(head + (q + a + n + d), 0, packed@) =~= packed@ + q + a + n + d);
    }
    Ok(buf.into_bytes())
}

} // verus!
