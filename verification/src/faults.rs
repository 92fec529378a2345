//! Which faults a decoding and an encoding can name. No opcode and no
//! response code is among their reasons: every code is passed through.

use crate::error::CodecError;
use crate::header::Header;
use crate::name::{parse_name_from, MAX_JUMPS, POINTER_MARK};
use crate::packet::{
    packet_fault, parse_packet, parse_questions, parse_records, questions_fault, records_fault,
    PacketView, HEADER_LEN,
};
use crate::record::{QuestionView, RecordView};
use vstd::prelude::*;

verus! {

/// The faults that a decoding can name.
pub open spec fn decoding_fault(e: CodecError) -> bool {
    e == CodecError::TruncatedBuffer || e == CodecError::InvalidPointer || e
        == CodecError::PointerChainTooLong || e == CodecError::LabelTooLong || e
        == CodecError::NameTooLong
}

/// The faults that an encoding can name.
pub open spec fn encoding_fault(e: CodecError) -> bool {
    e == CodecError::EmptyLabel || e == CodecError::LabelTooLong || e == CodecError::NameTooLong
        || e == CodecError::RdataTooLong || e == CodecError::TooManyRecords
}

/// A name that cannot be read is refused with a fault of decoding.
pub proof fn lemma_parse_name_faults(buf: Seq<u8>, at: int, jumps: int, used: int)
    requires
        parse_name_from(buf, at, jumps, used) is Err,
    ensures
        decoding_fault(parse_name_from(buf, at, jumps, used)->Err_0),
    decreases MAX_JUMPS - jumps, buf.len() - at,
{
    if 0 <= at < buf.len() && buf[at] != 0 {
        let b = buf[at];
        if b >= POINTER_MARK {
            if at + 1 < buf.len() {
                let target = crate::name::pointer_target(b, buf[at + 1]);
                if target < at && jumps < MAX_JUMPS {
                    lemma_parse_name_faults(buf, target, jumps + 1, used);
                }
            }
        } else if b <= crate::name::MAX_LABEL && at + 1 + b <= buf.len() && used + 1 + b + 1
            <= crate::name::MAX_NAME {
            lemma_parse_name_faults(buf, at + 1 + b, jumps, used + 1 + b);
        }
    }
}

/// Questions that cannot be read are refused with a fault of decoding.
pub proof fn lemma_parse_questions_faults(buf: Seq<u8>, at: int, n: int)
    requires
        parse_questions(buf, at, n) is Err,
    ensures
        decoding_fault(parse_questions(buf, at, n)->Err_0),
    decreases n,
{
    if n > 0 {
        match parse_questions(buf, at, n - 1) {
            Ok((found, mid)) => {
                if crate::name::parse_name(buf, mid) is Err {
                    lemma_parse_name_faults(buf, mid, 0, 0);
                }
            },
            Err(e) => {
                lemma_parse_questions_faults(buf, at, n - 1);
            },
        }
    }
}

/// Records that cannot be read are refused with a fault of decoding.
pub proof fn lemma_parse_records_faults(buf: Seq<u8>, at: int, n: int)
    requires
        parse_records(buf, at, n) is Err,
    ensures
        decoding_fault(parse_records(buf, at, n)->Err_0),
    decreases n,
{
    if n > 0 {
        match parse_records(buf, at, n - 1) {
            Ok((found, mid)) => {
                if crate::name::parse_name(buf, mid) is Err {
                    lemma_parse_name_faults(buf, mid, 0, 0);
                }
            },
            Err(e) => {
                lemma_parse_records_faults(buf, at, n - 1);
            },
        }
    }
}

/// A message that cannot be decoded is refused with a fault of decoding,
/// whatever opcode and response code its header holds.
pub proof fn lemma_decoding_faults(buf: Seq<u8>)
    requires
        parse_packet(buf) is Err,
    ensures
        decoding_fault(parse_packet(buf)->Err_0),
        parse_packet(buf)->Err_0 != CodecError::ReservedOpcodeOrRcodeUnsupported,
{
    if buf.len() >= HEADER_LEN {
        let header = Header::of(buf);
        match parse_questions(buf, HEADER_LEN as int, header.questions as int) {
            Ok((questions, a)) => match parse_records(buf, a, header.answers as int) {
                Ok((answers, b)) => match parse_records(
                    buf,
                    b,
                    header.authoritative_entries as int,
                ) {
                    Ok((authority, c)) => {
                        lemma_parse_records_faults(buf, c, header.additional_records as int);
                    },
                    Err(e) => {
                        lemma_parse_records_faults(buf, b, header.authoritative_entries as int);
                    },
                },
                Err(e) => {
                    lemma_parse_records_faults(buf, a, header.answers as int);
                },
            },
            Err(e) => {
                lemma_parse_questions_faults(buf, HEADER_LEN as int, header.questions as int);
            },
        }
    }
}

/// Questions at fault are refused with a fault of encoding.
pub proof fn lemma_questions_faults(qs: Seq<QuestionView>, n: int)
    requires
        questions_fault(qs, n) is Some,
    ensures
        encoding_fault(questions_fault(qs, n)->Some_0),
    decreases n,
{
    if n > 0 && questions_fault(qs, n - 1) is Some {
        lemma_questions_faults(qs, n - 1);
    }
}

/// Records at fault are refused with a fault of encoding.
pub proof fn lemma_records_faults(rs: Seq<RecordView>, n: int)
    requires
        records_fault(rs, n) is Some,
    ensures
        encoding_fault(records_fault(rs, n)->Some_0),
    decreases n,
{
    if n > 0 && records_fault(rs, n - 1) is Some {
        lemma_records_faults(rs, n - 1);
    }
}

/// A message that cannot be encoded is refused with a fault of encoding,
/// whatever opcode and response code its header holds.
pub proof fn lemma_encoding_faults(p: PacketView)
    requires
        packet_fault(p) is Some,
    ensures
        encoding_fault(packet_fault(p)->Some_0),
        packet_fault(p)->Some_0 != CodecError::ReservedOpcodeOrRcodeUnsupported,
{
    if questions_fault(p.questions, p.questions.len() as int) is Some {
        lemma_questions_faults(p.questions, p.questions.len() as int);
    } else if records_fault(p.answers, p.answers.len() as int) is Some {
        lemma_records_faults(p.answers, p.answers.len() as int);
    } else if records_fault(p.authority, p.authority.len() as int) is Some {
        lemma_records_faults(p.authority, p.authority.len() as int);
    } else if records_fault(p.additional, p.additional.len() as int) is Some {
        lemma_records_faults(p.additional, p.additional.len() as int);
    }
}

} // verus!
