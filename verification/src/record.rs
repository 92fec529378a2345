//! Questions and resource records, read from and written to a buffer.

use crate::buffer::{
    be16, be16_bytes, be32, be32_bytes, holds, lemma_overlay_twice, overlay, Buffer,
};
use crate::compression::{known_after, name_fault, name_wire, CompressionTable, Known};
use crate::error::CodecError;
use crate::name::{parse_name, Name};
use crate::query::{QueryClass, QueryType};
use vstd::prelude::*;

verus! {

/// The longest record data, in bytes: its length stands in sixteen bits.
pub const MAX_RDATA: usize = 65535;

/// From this value on a time to live has its top bit set.
pub const TTL_LIMIT: u32 = 2147483648;

/// A question: a name with the type and class that are asked for.
#[derive(Debug, Clone, PartialEq, Eq)]
pub struct Question {
    pub qname: Name,
    pub qtype: u16,
    pub qclass: u16,
}

/// What a `Question` is.
pub struct QuestionView {
    pub qname: Seq<Seq<u8>>,
    pub qtype: u16,
    pub qclass: u16,
}

impl View for Question {
    type V = QuestionView;

    open spec fn view(&self) -> QuestionView {
        QuestionView { qname: self.qname@, qtype: self.qtype, qclass: self.qclass }
    }
}

/// A resource record. Its data is kept as the bytes that the wire holds.
#[derive(Debug, Clone, PartialEq, Eq)]
pub struct ResourceRecord {
    pub qname: Name,
    pub qtype: u16,
    pub qclass: u16,
    /// Seconds. A value with the top bit set is read as zero.
    pub ttl: u32,
    pub rdata: Vec<u8>,
}

/// What a `ResourceRecord` is.
pub struct RecordView {
    pub qname: Seq<Seq<u8>>,
    pub qtype: u16,
    pub qclass: u16,
    pub ttl: u32,
    pub rdata: Seq<u8>,
}

impl View for ResourceRecord {
    type V = RecordView;

    open spec fn view(&self) -> RecordView {
        RecordView {
            qname: self.qname@,
            qtype: self.qtype,
            qclass: self.qclass,
            ttl: self.ttl,
            rdata: self.rdata@,
        }
    }
}

/// The time to live that the wire value `raw` stands for: zero where the
/// top bit is set.
pub open spec fn ttl_of(raw: u32) -> u32 {
    if raw >= TTL_LIMIT {
        0
    } else {
        raw
    }
}

/// Reads the question at index `at` of `buf`: a name, then type and class
/// in two bytes each. Gives the question and the index behind it.
pub open spec fn parse_question(buf: Seq<u8>, at: int) -> Result<(QuestionView, int), CodecError> {
    match parse_name(buf, at) {
        Err(e) => Err(e),
        Ok((labels, next)) => if !holds(buf, next, 4) {
            Err(CodecError::TruncatedBuffer)
        } else {
            Ok(
                (
                    QuestionView {
                        qname: labels,
                        qtype: be16(buf, next),
                        qclass: be16(buf, next + 2),
                    },
                    next + 4,
                ),
            )
        },
    }
}

/// Reads the record at index `at` of `buf`: a name, type and class in two
/// bytes each, the time to live in four, the length of the data in two,
/// and the data. Gives the record and the index behind it.
pub open spec fn parse_record(buf: Seq<u8>, at: int) -> Result<(RecordView, int), CodecError> {
    match parse_name(buf, at) {
        Err(e) => Err(e),
        Ok((labels, next)) => if !holds(buf, next, 10) {
            Err(CodecError::TruncatedBuffer)
        } else if !holds(buf, next + 10, be16(buf, next + 8) as int) {
            Err(CodecError::TruncatedBuffer)
        } else {
            Ok(
                (
                    RecordView {
                        qname: labels,
                        qtype: be16(buf, next),
                        qclass: be16(buf, next + 2),
                        ttl: ttl_of(be32(buf, next + 4)),
                        rdata: buf.subrange(next + 10, next + 10 + be16(buf, next + 8)),
                    },
                    next + 10 + be16(buf, next + 8),
                ),
            )
        },
    }
}

/// The bytes of a question, written when `known` holds the names that
/// stand before it.
pub open spec fn question_wire(q: QuestionView, known: Known) -> Seq<u8> {
    name_wire(q.qname, known) + be16_bytes(q.qtype) + be16_bytes(q.qclass)
}

/// What is wrong with a record that the wire cannot hold: its name, or data
/// longer than `MAX_RDATA`.
pub open spec fn record_fault(r: RecordView) -> Option<CodecError> {
    match name_fault(r.qname) {
        Some(e) => Some(e),
        None => if r.rdata.len() > MAX_RDATA {
            Some(CodecError::RdataTooLong)
        } else {
            None
        },
    }
}

/// The bytes of a record, written when `known` holds the names that stand
/// before it. The length of the data is taken from the data.
pub open spec fn record_wire(r: RecordView, known: Known) -> Seq<u8> {
    name_wire(r.qname, known) + be16_bytes(r.qtype) + be16_bytes(r.qclass) + be32_bytes(r.ttl)
        + be16_bytes(r.rdata.len() as u16) + r.rdata
}

impl Question {
    /// The type that is asked for, by its name where it has one.
    pub fn query_type(&self) -> (r: QueryType)
        ensures
            r == QueryType::of(self.qtype),
    {
        QueryType::from_u16(self.qtype)
    }

    /// The class that is asked for, by its name where it has one.
    pub fn query_class(&self) -> (r: QueryClass)
        ensures
            r == QueryClass::of(self.qclass),
    {
        QueryClass::from_u16(self.qclass)
    }

    /// Reads the question under the cursor and steps past it. Where it
    /// cannot be read the cursor stays.
    pub fn read(buf: &mut Buffer) -> (r: Result<Question, CodecError>)
        ensures
            final(buf)@.bytes == old(buf)@.bytes,
            match parse_question(old(buf)@.bytes, old(buf)@.position) {
                Ok((q, next)) => r is Ok && r->Ok_0@ == q && final(buf)@.position == next,
                Err(e) => r is Err && r->Err_0 == e && final(buf)@ == old(buf)@,
            },
    {
        let start: usize = buf.position();
        let qname = match buf.read_labels() {
            Ok(name) => name,
            Err(e) => {
                return Err(e);
            },
        };
        if buf.len() - buf.position() < 4 {
            let back = buf.seek(start);
            return Err(CodecError::TruncatedBuffer);
        }
        let qtype: u16 = match buf.read_u16() {
            Ok(v) => v,
            Err(e) => {
                return Err(e);
            },
        };
        let qclass: u16 = match buf.read_u16() {
            Ok(v) => v,
            Err(e) => {
                return Err(e);
            },
        };
        Ok(Question { qname, qtype, qclass })
    }

    /// Writes this question from the cursor on and steps past it. A
    /// question whose name the wire cannot hold is refused, and buffer and
    /// table stay as they are.
    pub fn write(&self, buf: &mut Buffer, table: &mut CompressionTable) -> (r: Result<
        (),
        CodecError,
    >)
        ensures
            match name_fault(self@.qname) {
                Some(e) => r == Err::<(), CodecError>(e) && final(buf)@ == old(buf)@
                    && final(table)@ == old(table)@,
                None => r == Ok::<(), CodecError>(()) && final(buf)@.bytes == overlay(
                    old(buf)@.bytes,
                    old(buf)@.position,
                    question_wire(self@, old(table)@),
                ) && final(buf)@.position == old(buf)@.position + question_wire(
                    self@,
                    old(table)@,
                ).len() && final(table)@ == known_after(
                    self@.qname,
                    old(buf)@.position,
                    old(table)@,
                ),
            },
    {
        let ghost base = buf@.bytes;
        let ghost known = table@;
        let start: usize = buf.position();
        match buf.write_name(&self.qname, table) {
            Ok(()) => {},
            Err(e) => {
                return Err(e);
            },
        }
        buf.write_u16(self.qtype);
        buf.write_u16(self.qclass);
        proof {
            let name = name_wire(self@.qname, known);
            lemma_overlay_twice(base, start as int, name, be16_bytes(self.qtype));
            lemma_overlay_twice(
                base,
                start as int,
                name + be16_bytes(self.qtype),
                be16_bytes(self.qclass),
            );
        }
        Ok(())
    }
}

impl ResourceRecord {
    /// The type of this record, by its name where it has one.
    pub fn query_type(&self) -> (r: QueryType)
        ensures
            r == QueryType::of(self.qtype),
    {
        QueryType::from_u16(self.qtype)
    }

    /// The class of this record, by its name where it has one.
    pub fn query_class(&self) -> (r: QueryClass)
        ensures
            r == QueryClass::of(self.qclass),
    {
        QueryClass::from_u16(self.qclass)
    }

    /// Reads the record under the cursor and steps past it. Where it
    /// cannot be read the cursor stays.
    pub fn read(buf: &mut Buffer) -> (r: Result<ResourceRecord, CodecError>)
        ensures
            final(buf)@.bytes == old(buf)@.bytes,
            match parse_record(old(buf)@.bytes, old(buf)@.position) {
                Ok((rr, next)) => r is Ok && r->Ok_0@ == rr && final(buf)@.position == next,
                Err(e) => r is Err && r->Err_0 == e && final(buf)@ == old(buf)@,
            },
    {
        let start: usize = buf.position();
        let qname = match buf.read_labels() {
            Ok(name) => name,
            Err(e) => {
                return Err(e);
            },
        };
        if buf.len() - buf.position() < 10 {
            let back = buf.seek(start);
            return Err(CodecError::TruncatedBuffer);
        }
        let qtype: u16 = match buf.read_u16() {
            Ok(v) => v,
            Err(e) => {
                return Err(e);
            },
        };
        let qclass: u16 = match buf.read_u16() {
            Ok(v) => v,
            Err(e) => {
                return Err(e);
            },
        };
        let raw: u32 = match buf.read_u32() {
            Ok(v) => v,
            Err(e) => {
                return Err(e);
            },
        };
        let size: u16 = match buf.read_u16() {
            Ok(v) => v,
            Err(e) => {
                return Err(e);
            },
        };
        let rdata: Vec<u8> = match buf.read_sized(size as usize) {
            Ok(bytes) => bytes,
            Err(e) => {
                let back = buf.seek(start);
                return Err(e);
            },
        };
        let ttl: u32 = if raw >= TTL_LIMIT {
            0
        } else {
            raw
        };
        Ok(ResourceRecord { qname, qtype, qclass, ttl, rdata })
    }

    /// Writes this record from the cursor on and steps past it. A record
    /// that the wire cannot hold is refused, and buffer and table stay as
    /// they are.
    pub fn write(&self, buf: &mut Buffer, table: &mut CompressionTable) -> (r: Result<
        (),
        CodecError,
    >)
        ensures
            match record_fault(self@) {
                Some(e) => r == Err::<(), CodecError>(e) && final(buf)@ == old(buf)@
                    && final(table)@ == old(table)@,
                None => r == Ok::<(), CodecError>(()) && final(buf)@.bytes == overlay(
                    old(buf)@.bytes,
                    old(buf)@.position,
                    record_wire(self@, old(table)@),
                ) && final(buf)@.position == old(buf)@.position + record_wire(
                    self@,
                    old(table)@,
                ).len() && final(table)@ == known_after(
                    self@.qname,
                    old(buf)@.position,
                    old(table)@,
                ),
            },
    {
        let ghost base = buf@.bytes;
        let ghost known = table@;
        let start: usize = buf.position();
        match self.qname.validate() {
            Ok(()) => {},
            Err(e) => {
                return Err(e);
            },
        }
        if self.rdata.len() > MAX_RDATA {
            return Err(CodecError::RdataTooLong);
        }
        match buf.write_name(&self.qname, table) {
            Ok(()) => {},
            Err(e) => {
                return Err(e);
            },
        }
        let ghost a = name_wire(self@.qname, known);
        let ghost b = a + be16_bytes(self.qtype);
        let ghost c = b + be16_bytes(self.qclass);
        let ghost d = c + be32_bytes(self.ttl);
        let ghost e = d + be16_bytes(self.rdata@.len() as u16);
        buf.write_u16(self.qtype);
        assert(buf@.bytes == overlay(base, start as int, b)) by {
            lemma_overlay_twice(base, start as int, a, be16_bytes(self.qtype));
        }
        buf.write_u16(self.qclass);
        assert(buf@.bytes == overlay(base, start as int, c)) by {
            lemma_overlay_twice(base, start as int, b, be16_bytes(self.qclass));
        }
        buf.write_u32(self.ttl);
        assert(buf@.bytes == overlay(base, start as int, d)) by {
            lemma_overlay_twice(base, start as int, c, be32_bytes(self.ttl));
        }
        buf.write_u16(self.rdata.len() as u16);
        assert(buf@.bytes == overlay(base, start as int, e)) by {
            lemma_overlay_twice(base, start as int, d, be16_bytes(self.rdata@.len() as u16));
        }
        buf.write_bytes(self.rdata.as_slice());
        assert(buf@.bytes == overlay(base, start as int, e + self.rdata@)) by {
            lemma_overlay_twice(base, start as int, e, self.rdata@);
        }
        Ok(())
    }
}

} // verus!
