//! The record types and classes that have a name, beside the codes that
//! stand for them on the wire.

use vstd::prelude::*;

verus! {

/// The type of a record, or of the records that a question asks for.
#[allow(clippy::upper_case_acronyms)]
#[derive(Debug, Clone, Copy, PartialEq, Eq, Structural)]
pub enum QueryType {
    A,
    AAAA,
    AFSDB,
    APL,
    AXFR,
    CAA,
    CDNSKEY,
    CDS,
    CERT,
    CNAME,
    CSYNC,
    DHCID,
    DLV,
    DNAME,
    DNSKEY,
    DS,
    EUI48,
    EUI64,
    HINFO,
    HIP,
    HTTPS,
    IPSECKEY,
    IXFR,
    KEY,
    KX,
    LOC,
    MX,
    NAPTR,
    NS,
    NSEC,
    NSEC3,
    NSEC3PARAM,
    OPENPGPKEY,
    OPT,
    PTR,
    RP,
    RRSIG,
    SIG,
    SMIMEA,
    SOA,
    SRV,
    SSHFP,
    SVCB,
    TA,
    TKEY,
    TLSA,
    TSIG,
    TXT,
    URI,
    ZONEMD,
    /// A code without a name, kept as it is.
    Unknown(u16),
}

impl QueryType {
    /// The code that stands for this type on the wire.
    pub open spec fn value(self) -> u16 {
        match self {
            QueryType::A => 1,
            QueryType::AAAA => 28,
            QueryType::AFSDB => 18,
            QueryType::APL => 42,
            QueryType::AXFR => 252,
            QueryType::CAA => 257,
            QueryType::CDNSKEY => 60,
            QueryType::CDS => 59,
            QueryType::CERT => 37,
            QueryType::CNAME => 5,
            QueryType::CSYNC => 62,
            QueryType::DHCID => 49,
            QueryType::DLV => 32769,
            QueryType::DNAME => 39,
            QueryType::DNSKEY => 48,
            QueryType::DS => 43,
            QueryType::EUI48 => 108,
            QueryType::EUI64 => 109,
            QueryType::HINFO => 13,
            QueryType::HIP => 55,
            QueryType::HTTPS => 65,
            QueryType::IPSECKEY => 45,
            QueryType::IXFR => 251,
            QueryType::KEY => 25,
            QueryType::KX => 36,
            QueryType::LOC => 29,
            QueryType::MX => 15,
            QueryType::NAPTR => 35,
            QueryType::NS => 2,
            QueryType::NSEC => 47,
            QueryType::NSEC3 => 50,
            QueryType::NSEC3PARAM => 51,
            QueryType::OPENPGPKEY => 61,
            QueryType::OPT => 41,
            QueryType::PTR => 12,
            QueryType::RP => 17,
            QueryType::RRSIG => 46,
            QueryType::SIG => 24,
            QueryType::SMIMEA => 53,
            QueryType::SOA => 6,
            QueryType::SRV => 33,
            QueryType::SSHFP => 44,
            QueryType::SVCB => 64,
            QueryType::TA => 32768,
            QueryType::TKEY => 249,
            QueryType::TLSA => 52,
            QueryType::TSIG => 250,
            QueryType::TXT => 16,
            QueryType::URI => 256,
            QueryType::ZONEMD => 63,
            QueryType::Unknown(v) => v,
        }
    }

    /// The type that the code `v` stands for.
    pub open spec fn of(v: u16) -> QueryType {
        if v == 1 {
            QueryType::A
        } else if v == 2 {
            QueryType::NS
        } else if v == 5 {
            QueryType::CNAME
        } else if v == 6 {
            QueryType::SOA
        } else if v == 12 {
            QueryType::PTR
        } else if v == 13 {
            QueryType::HINFO
        } else if v == 15 {
            QueryType::MX
        } else if v == 16 {
            QueryType::TXT
        } else if v == 17 {
            QueryType::RP
        } else if v == 18 {
            QueryType::AFSDB
        } else if v == 24 {
            QueryType::SIG
        } else if v == 25 {
            QueryType::KEY
        } else if v == 28 {
            QueryType::AAAA
        } else if v == 29 {
            QueryType::LOC
        } else if v == 33 {
            QueryType::SRV
        } else if v == 35 {
            QueryType::NAPTR
        } else if v == 36 {
            QueryType::KX
        } else if v == 37 {
            QueryType::CERT
        } else if v == 39 {
            QueryType::DNAME
        } else if v == 41 {
            QueryType::OPT
        } else if v == 42 {
            QueryType::APL
        } else if v == 43 {
            QueryType::DS
        } else if v == 44 {
            QueryType::SSHFP
        } else if v == 45 {
            QueryType::IPSECKEY
        } else if v == 46 {
            QueryType::RRSIG
        } else if v == 47 {
            QueryType::NSEC
        } else if v == 48 {
            QueryType::DNSKEY
        } else if v == 49 {
            QueryType::DHCID
        } else if v == 50 {
            QueryType::NSEC3
        } else if v == 51 {
            QueryType::NSEC3PARAM
        } else if v == 52 {
            QueryType::TLSA
        } else if v == 53 {
            QueryType::SMIMEA
        } else if v == 55 {
            QueryType::HIP
        } else if v == 59 {
            QueryType::CDS
        } else if v == 60 {
            QueryType::CDNSKEY
        } else if v == 61 {
            QueryType::OPENPGPKEY
        } else if v == 62 {
            QueryType::CSYNC
        } else if v == 63 {
            QueryType::ZONEMD
        } else if v == 64 {
            QueryType::SVCB
        } else if v == 65 {
            QueryType::HTTPS
        } else if v == 108 {
            QueryType::EUI48
        } else if v == 109 {
            QueryType::EUI64
        } else if v == 249 {
            QueryType::TKEY
        } else if v == 250 {
            QueryType::TSIG
        } else if v == 251 {
            QueryType::IXFR
        } else if v == 252 {
            QueryType::AXFR
        } else if v == 256 {
            QueryType::URI
        } else if v == 257 {
            QueryType::CAA
        } else if v == 32768 {
            QueryType::TA
        } else if v == 32769 {
            QueryType::DLV
        } else {
            QueryType::Unknown(v)
        }
    }

    /// A type is well formed when a code kept without a name has none.
    pub open spec fn wf(self) -> bool {
        match self {
            QueryType::Unknown(v) => QueryType::of(v) == QueryType::Unknown(v),
            _ => true,
        }
    }

    /// The code that stands for this type on the wire.
    pub fn to_u16(self) -> (r: u16)
        ensures
            r == self.value(),
    {
        match self {
            QueryType::A => 1,
            QueryType::AAAA => 28,
            QueryType::AFSDB => 18,
            QueryType::APL => 42,
            QueryType::AXFR => 252,
            QueryType::CAA => 257,
            QueryType::CDNSKEY => 60,
            QueryType::CDS => 59,
            QueryType::CERT => 37,
            QueryType::CNAME => 5,
            QueryType::CSYNC => 62,
            QueryType::DHCID => 49,
            QueryType::DLV => 32769,
            QueryType::DNAME => 39,
            QueryType::DNSKEY => 48,
            QueryType::DS => 43,
            QueryType::EUI48 => 108,
            QueryType::EUI64 => 109,
            QueryType::HINFO => 13,
            QueryType::HIP => 55,
            QueryType::HTTPS => 65,
            QueryType::IPSECKEY => 45,
            QueryType::IXFR => 251,
            QueryType::KEY => 25,
            QueryType::KX => 36,
            QueryType::LOC => 29,
            QueryType::MX => 15,
            QueryType::NAPTR => 35,
            QueryType::NS => 2,
            QueryType::NSEC => 47,
            QueryType::NSEC3 => 50,
            QueryType::NSEC3PARAM => 51,
            QueryType::OPENPGPKEY => 61,
            QueryType::OPT => 41,
            QueryType::PTR => 12,
            QueryType::RP => 17,
            QueryType::RRSIG => 46,
            QueryType::SIG => 24,
            QueryType::SMIMEA => 53,
            QueryType::SOA => 6,
            QueryType::SRV => 33,
            QueryType::SSHFP => 44,
            QueryType::SVCB => 64,
            QueryType::TA => 32768,
            QueryType::TKEY => 249,
            QueryType::TLSA => 52,
            QueryType::TSIG => 250,
            QueryType::TXT => 16,
            QueryType::URI => 256,
            QueryType::ZONEMD => 63,
            QueryType::Unknown(v) => v,
        }
    }

    /// The type that the code `v` stands for; a code without a name is
    /// kept.
    pub fn from_u16(v: u16) -> (r: QueryType)
        ensures
            r == QueryType::of(v),
            r.wf(),
            r.value() == v,
    {
        if v == 1 {
            QueryType::A
        } else if v == 2 {
            QueryType::NS
        } else if v == 5 {
            QueryType::CNAME
        } else if v == 6 {
            QueryType::SOA
        } else if v == 12 {
            QueryType::PTR
        } else if v == 13 {
            QueryType::HINFO
        } else if v == 15 {
            QueryType::MX
        } else if v == 16 {
            QueryType::TXT
        } else if v == 17 {
            QueryType::RP
        } else if v == 18 {
            QueryType::AFSDB
        } else if v == 24 {
            QueryType::SIG
        } else if v == 25 {
            QueryType::KEY
        } else if v == 28 {
            QueryType::AAAA
        } else if v == 29 {
            QueryType::LOC
        } else if v == 33 {
            QueryType::SRV
        } else if v == 35 {
            QueryType::NAPTR
        } else if v == 36 {
            QueryType::KX
        } else if v == 37 {
            QueryType::CERT
        } else if v == 39 {
            QueryType::DNAME
        } else if v == 41 {
            QueryType::OPT
        } else if v == 42 {
            QueryType::APL
        } else if v == 43 {
            QueryType::DS
        } else if v == 44 {
            QueryType::SSHFP
        } else if v == 45 {
            QueryType::IPSECKEY
        } else if v == 46 {
            QueryType::RRSIG
        } else if v == 47 {
            QueryType::NSEC
        } else if v == 48 {
            QueryType::DNSKEY
        } else if v == 49 {
            QueryType::DHCID
        } else if v == 50 {
            QueryType::NSEC3
        } else if v == 51 {
            QueryType::NSEC3PARAM
        } else if v == 52 {
            QueryType::TLSA
        } else if v == 53 {
            QueryType::SMIMEA
        } else if v == 55 {
            QueryType::HIP
        } else if v == 59 {
            QueryType::CDS
        } else if v == 60 {
            QueryType::CDNSKEY
        } else if v == 61 {
            QueryType::OPENPGPKEY
        } else if v == 62 {
            QueryType::CSYNC
        } else if v == 63 {
            QueryType::ZONEMD
        } else if v == 64 {
            QueryType::SVCB
        } else if v == 65 {
            QueryType::HTTPS
        } else if v == 108 {
            QueryType::EUI48
        } else if v == 109 {
            QueryType::EUI64
        } else if v == 249 {
            QueryType::TKEY
        } else if v == 250 {
            QueryType::TSIG
        } else if v == 251 {
            QueryType::IXFR
        } else if v == 252 {
            QueryType::AXFR
        } else if v == 256 {
            QueryType::URI
        } else if v == 257 {
            QueryType::CAA
        } else if v == 32768 {
            QueryType::TA
        } else if v == 32769 {
            QueryType::DLV
        } else {
            QueryType::Unknown(v)
        }
    }

    /// Every code stands for a well-formed type, whose code it is.
    pub proof fn lemma_value_of(v: u16)
        ensures
            QueryType::of(v).wf(),
            QueryType::of(v).value() == v,
    {
    }

    /// A well-formed type is the one that its code stands for.
    pub proof fn lemma_of_value(self)
        requires
            self.wf(),
        ensures
            QueryType::of(self.value()) == self,
    {
    }
}

/// The class of a record, or of the records that a question asks for.
#[allow(clippy::upper_case_acronyms)]
#[derive(Debug, Clone, Copy, PartialEq, Eq, Structural)]
pub enum QueryClass {
    INTERNET,
    CSNET,
    CHAOS,
    HESIOD,
    NONE,
    ALLANY,
    /// A code without a name, kept as it is.
    Unknown(u16),
}

impl QueryClass {
    /// The code that stands for this class on the wire.
    pub open spec fn value(self) -> u16 {
        match self {
            QueryClass::INTERNET => 1,
            QueryClass::CSNET => 2,
            QueryClass::CHAOS => 3,
            QueryClass::HESIOD => 4,
            QueryClass::NONE => 254,
            QueryClass::ALLANY => 255,
            QueryClass::Unknown(v) => v,
        }
    }

    /// The class that the code `v` stands for.
    pub open spec fn of(v: u16) -> QueryClass {
        if v == 1 {
            QueryClass::INTERNET
        } else if v == 2 {
            QueryClass::CSNET
        } else if v == 3 {
            QueryClass::CHAOS
        } else if v == 4 {
            QueryClass::HESIOD
        } else if v == 254 {
            QueryClass::NONE
        } else if v == 255 {
            QueryClass::ALLANY
        } else {
            QueryClass::Unknown(v)
        }
    }

    /// A class is well formed when a code kept without a name has none.
    pub open spec fn wf(self) -> bool {
        match self {
            QueryClass::Unknown(v) => QueryClass::of(v) == QueryClass::Unknown(v),
            _ => true,
        }
    }

    /// The code that stands for this class on the wire.
    pub fn to_u16(self) -> (r: u16)
        ensures
            r == self.value(),
    {
        match self {
            QueryClass::INTERNET => 1,
            QueryClass::CSNET => 2,
            QueryClass::CHAOS => 3,
            QueryClass::HESIOD => 4,
            QueryClass::NONE => 254,
            QueryClass::ALLANY => 255,
            QueryClass::Unknown(v) => v,
        }
    }

    /// The class that the code `v` stands for; a code without a name is
    /// kept.
    pub fn from_u16(v: u16) -> (r: QueryClass)
        ensures
            r == QueryClass::of(v),
            r.wf(),
            r.value() == v,
    {
        if v == 1 {
            QueryClass::INTERNET
        } else if v == 2 {
            QueryClass::CSNET
        } else if v == 3 {
            QueryClass::CHAOS
        } else if v == 4 {
            QueryClass::HESIOD
        } else if v == 254 {
            QueryClass::NONE
        } else if v == 255 {
            QueryClass::ALLANY
        } else {
            QueryClass::Unknown(v)
        }
    }

    /// Every code stands for a well-formed class, whose code it is.
    pub proof fn lemma_value_of(v: u16)
        ensures
            QueryClass::of(v).wf(),
            QueryClass::of(v).value() == v,
    {
    }

    /// A well-formed class is the one that its code stands for.
    pub proof fn lemma_of_value(self)
        requires
            self.wf(),
        ensures
            QueryClass::of(self.value()) == self,
    {
    }
}

} // verus!
