//! The fixed twelve-byte header that opens every message.

use crate::buffer::be16;
use crate::error::CodecError;
use core::convert::TryFrom;
use vstd::prelude::*;
use vstd::std_specs::convert::TryFromSpecImpl;

verus! {

/// The response code of a header. The codes from 6 to 15 have no name and
/// are carried as they are.
#[allow(clippy::upper_case_acronyms)]
#[derive(Debug, Clone, Copy, PartialEq, Eq, Structural)]
pub enum ResponseCode {
    NOERROR,
    FORMERR,
    SERVFAIL,
    NXDOMAIN,
    NOTIMP,
    REFUSED,
    Reserved(u8),
}

impl ResponseCode {
    /// The number that stands for this code on the wire.
    pub open spec fn value(self) -> u8 {
        match self {
            ResponseCode::NOERROR => 0,
            ResponseCode::FORMERR => 1,
            ResponseCode::SERVFAIL => 2,
            ResponseCode::NXDOMAIN => 3,
            ResponseCode::NOTIMP => 4,
            ResponseCode::REFUSED => 5,
            ResponseCode::Reserved(v) => v,
        }
    }

    /// The code that `v` stands for.
    pub open spec fn of(v: u8) -> ResponseCode {
        if v == 0 {
            ResponseCode::NOERROR
        } else if v == 1 {
            ResponseCode::FORMERR
        } else if v == 2 {
            ResponseCode::SERVFAIL
        } else if v == 3 {
            ResponseCode::NXDOMAIN
        } else if v == 4 {
            ResponseCode::NOTIMP
        } else if v == 5 {
            ResponseCode::REFUSED
        } else {
            ResponseCode::Reserved(v)
        }
    }

    /// A code is well formed when it fits the header's four bits and an
    /// unnamed code is none of the named ones.
    pub open spec fn wf(self) -> bool {
        match self {
            ResponseCode::Reserved(v) => 6 <= v <= 15,
            _ => true,
        }
    }

    /// The number that stands for this code on the wire.
    pub fn to_u8(self) -> (r: u8)
        ensures
            r == self.value(),
    {
        match self {
            ResponseCode::NOERROR => 0,
            ResponseCode::FORMERR => 1,
            ResponseCode::SERVFAIL => 2,
            ResponseCode::NXDOMAIN => 3,
            ResponseCode::NOTIMP => 4,
            ResponseCode::REFUSED => 5,
            ResponseCode::Reserved(v) => v,
        }
    }

    /// The code that `v` stands for; a number without a name is kept.
    pub fn from_u8(v: u8) -> (r: ResponseCode)
        ensures
            r == ResponseCode::of(v),
    {
        if v == 0 {
            ResponseCode::NOERROR
        } else if v == 1 {
            ResponseCode::FORMERR
        } else if v == 2 {
            ResponseCode::SERVFAIL
        } else if v == 3 {
            ResponseCode::NXDOMAIN
        } else if v == 4 {
            ResponseCode::NOTIMP
        } else if v == 5 {
            ResponseCode::REFUSED
        } else {
            ResponseCode::Reserved(v)
        }
    }
}

/// One flag as a number.
pub open spec fn bit(flag: bool) -> int {
    if flag {
        1
    } else {
        0
    }
}

/// The header of a message: 96 bits in thirteen fields.
#[derive(Debug, Clone, Copy, PartialEq, Eq, Structural)]
pub struct Header {
    /// 16 bits.
    pub id: u16,
    /// 1 bit.
    pub is_response: bool,
    /// 4 bits.
    pub opcode: u8,
    /// 1 bit.
    pub is_authoritative_answer: bool,
    /// 1 bit.
    pub is_truncated_message: bool,
    /// 1 bit.
    pub is_recursion_desired: bool,
    /// 1 bit.
    pub is_recursion_available: bool,
    /// 3 bits, reserved; carried as they are.
    pub z: u8,
    /// 4 bits.
    pub response_code: ResponseCode,
    /// 16 bits: how many questions follow.
    pub questions: u16,
    /// 16 bits: how many answer records follow.
    pub answers: u16,
    /// 16 bits: how many authority records follow.
    pub authoritative_entries: u16,
    /// 16 bits: how many additional records follow.
    pub additional_records: u16,
}

impl Header {
    /// Every field fits the bits that the wire gives it.
    pub open spec fn wf(self) -> bool {
        &&& self.opcode < 16
        &&& self.z < 8
        &&& self.response_code.wf()
    }

    /// The third byte on the wire: response flag, opcode and three flags.
    pub open spec fn flags_high(self) -> u8 {
        (bit(self.is_response) * 128 + (self.opcode % 16) * 8 + bit(self.is_authoritative_answer)
            * 4 + bit(self.is_truncated_message) * 2 + bit(self.is_recursion_desired)) as u8
    }

    /// The fourth byte on the wire: one flag, the reserved bits and the
    /// response code.
    pub open spec fn flags_low(self) -> u8 {
        (bit(self.is_recursion_available) * 128 + (self.z % 8) * 16 + self.response_code.value()
            % 16) as u8
    }

    /// The twelve bytes of this header. A field wider than its bits is cut
    /// down to them.
    pub open spec fn wire(self) -> Seq<u8> {
        seq![
            (self.id / 256) as u8,
            (self.id % 256) as u8,
            self.flags_high(),
            self.flags_low(),
            (self.questions / 256) as u8,
            (self.questions % 256) as u8,
            (self.answers / 256) as u8,
            (self.answers % 256) as u8,
            (self.authoritative_entries / 256) as u8,
            (self.authoritative_entries % 256) as u8,
            (self.additional_records / 256) as u8,
            (self.additional_records % 256) as u8,
        ]
    }

    /// The header that the first twelve bytes of `bytes` hold.
    pub open spec fn of(bytes: Seq<u8>) -> Header
        recommends
            bytes.len() >= 12,
    {
        Header {
            id: be16(bytes, 0),
            is_response: bytes[2] >= 128,
            opcode: ((bytes[2] / 8) % 16) as u8,
            is_authoritative_answer: (bytes[2] / 4) % 2 == 1,
            is_truncated_message: (bytes[2] / 2) % 2 == 1,
            is_recursion_desired: bytes[2] % 2 == 1,
            is_recursion_available: bytes[3] >= 128,
            z: ((bytes[3] / 16) % 8) as u8,
            response_code: ResponseCode::of((bytes[3] % 16) as u8),
            questions: be16(bytes, 4),
            answers: be16(bytes, 6),
            authoritative_entries: be16(bytes, 8),
            additional_records: be16(bytes, 10),
        }
    }

    /// Encodes this header into its twelve bytes.
    pub fn encode(&self) -> (r: [u8; 12])
        ensures
            r@ == self.wire(),
    {
        let qr: u8 = if self.is_response { 128 } else { 0 };
        let aa: u8 = if self.is_authoritative_answer { 4 } else { 0 };
        let tc: u8 = if self.is_truncated_message { 2 } else { 0 };
        let rd: u8 = if self.is_recursion_desired { 1 } else { 0 };
        let ra: u8 = if self.is_recursion_available { 128 } else { 0 };
        let high: u8 = qr + (self.opcode % 16) * 8 + aa + tc + rd;
        let low: u8 = ra + (self.z % 8) * 16 + self.response_code.to_u8() % 16;
        let r: [u8; 12] = [
            (self.id / 256) as u8,
            (self.id % 256) as u8,
            high,
            low,
            (self.questions / 256) as u8,
            (self.questions % 256) as u8,
            (self.answers / 256) as u8,
            (self.answers % 256) as u8,
            (self.authoritative_entries / 256) as u8,
            (self.authoritative_entries % 256) as u8,
            (self.additional_records / 256) as u8,
            (self.additional_records % 256) as u8,
        ];
        assert(r@ =~= self.wire());
        r
    }

    /// Decoding the bytes of a well-formed header gives the header back,
    /// whatever follows the twelve bytes.
    pub proof fn lemma_decode_encode(self, rest: Seq<u8>)
        requires
            self.wf(),
        ensures
            Header::of(self.wire() + rest) == self,
    {
        let bytes = self.wire() + rest;
        assert(forall|i: int| 0 <= i < 12 ==> bytes[i] == self.wire()[i]);
        assert(bytes[2] == self.flags_high());
        assert(bytes[3] == self.flags_low());
    }

    /// The header that bytes hold is well formed, whatever the bytes are.
    pub proof fn lemma_decoded_is_well_formed(bytes: Seq<u8>)
        ensures
            Header::of(bytes).wf(),
    {
        lemma_flags_low(bytes[3]);
    }

    /// Encoding the header that twelve bytes hold gives the same twelve
    /// bytes, and that header is well formed.
    pub proof fn lemma_encode_decode(bytes: Seq<u8>)
        requires
            bytes.len() == 12,
        ensures
            Header::of(bytes).wf(),
            Header::of(bytes).wire() == bytes,
    {
        let h = Header::of(bytes);
        lemma_flags_high(bytes[2]);
        lemma_flags_low(bytes[3]);
        assert(h.flags_high() == bytes[2]);
        assert(h.flags_low() == bytes[3]);
        lemma_pair(bytes[0], bytes[1]);
        lemma_pair(bytes[4], bytes[5]);
        lemma_pair(bytes[6], bytes[7]);
        lemma_pair(bytes[8], bytes[9]);
        lemma_pair(bytes[10], bytes[11]);
        assert(h.wire() =~= bytes);
    }
}

impl TryFromSpecImpl<&[u8]> for Header {
    open spec fn obeys_try_from_spec() -> bool {
        true
    }

    /// What decoding gives: the header that the first twelve bytes hold.
    /// Fewer than twelve bytes are refused; no bit pattern is.
    open spec fn try_from_spec(item: &[u8]) -> Result<Header, CodecError> {
        if item@.len() >= 12 {
            Ok(Header::of(item@))
        } else {
            Err(CodecError::TruncatedBuffer)
        }
    }
}

impl TryFrom<&[u8]> for Header {
    type Error = CodecError;

    /// Decodes the header that the first twelve bytes of `item` hold.
    /// Fewer than twelve bytes are refused; no bit pattern is.
    fn try_from(item: &[u8]) -> (r: Result<Header, CodecError>)
        ensures
            item@.len() >= 12 ==> r == Ok::<Header, CodecError>(Header::of(item@)),
            item@.len() < 12 ==> r == Err::<Header, CodecError>(CodecError::TruncatedBuffer),
    {
        if item.len() < 12 {
            return Err(CodecError::TruncatedBuffer);
        }
        let high: u8 = item[2];
        let low: u8 = item[3];
        Ok(
            Header {
                id: pair(item[0], item[1]),
                is_response: high >= 128,
                opcode: (high / 8) % 16,
                is_authoritative_answer: (high / 4) % 2 == 1,
                is_truncated_message: (high / 2) % 2 == 1,
                is_recursion_desired: high % 2 == 1,
                is_recursion_available: low >= 128,
                z: (low / 16) % 8,
                response_code: ResponseCode::from_u8(low % 16),
                questions: pair(item[4], item[5]),
                answers: pair(item[6], item[7]),
                authoritative_entries: pair(item[8], item[9]),
                additional_records: pair(item[10], item[11]),
            },
        )
    }
}

/// The flags that the third byte holds make up the byte again.
proof fn lemma_flags_high(b: u8)
    ensures
        bit(b >= 128) * 128 + (((b / 8) % 16) as u8 % 16) * 8 + bit((b / 4) % 2 == 1) * 4 + bit(
            (b / 2) % 2 == 1,
        ) * 2 + bit(b % 2 == 1) == b,
{
    let n = b as int;
    assert(n == 128 * (n / 128) + n % 128);
    assert(n == 8 * (n / 8) + n % 8);
    assert(n / 8 == 16 * (n / 128) + (n / 8) % 16);
    assert(n % 8 == 4 * ((n / 4) % 2) + 2 * ((n / 2) % 2) + n % 2);
}

/// The fields that the fourth byte holds make up the byte again.
proof fn lemma_flags_low(b: u8)
    ensures
        bit(b >= 128) * 128 + (((b / 16) % 8) as u8 % 8) * 16 + ResponseCode::of(
            (b % 16) as u8,
        ).value() % 16 == b,
        ResponseCode::of((b % 16) as u8).wf(),
{
    let n = b as int;
    assert(n == 16 * (n / 16) + n % 16);
    assert(n / 16 == 8 * (n / 128) + (n / 16) % 8);
}

/// A 16-bit value made of two bytes splits into them again.
proof fn lemma_pair(high: u8, low: u8)
    ensures
        ((high * 256 + low) as u16 / 256) as u8 == high,
        ((high * 256 + low) as u16 % 256) as u8 == low,
{
}

/// Two bytes as a 16-bit value, high byte first.
fn pair(high: u8, low: u8) -> (r: u16)
    ensures
        r == high * 256 + low,
{
    let h: u16 = high as u16;
    let l: u16 = low as u16;
    h * 256 + l
}

} // verus!
