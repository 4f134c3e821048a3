//! The enumerated header fields of a DNS message: query/response bit,
//! opcode, response code, record type and record class, together with
//! their wire codes.

use vstd::prelude::*;

verus! {

/// Query or Response bit.
#[derive(Copy, Clone, Debug, PartialEq, Eq, Structural)]
pub enum QR {
    Query,
    Response,
}

impl QR {
    pub fn from_bool(b: bool) -> (r: QR)
        ensures
            r == (if b { QR::Response } else { QR::Query }),
    {
        match b {
            false => QR::Query,
            true => QR::Response,
        }
    }

    pub fn to_bool(self) -> (r: bool)
        ensures
            r == (self == QR::Response),
    {
        match self {
            QR::Query => false,
            QR::Response => true,
        }
    }
}

impl Default for QR {
    fn default() -> (r: Self)
        ensures
            r == QR::Query,
    {
        QR::Query
    }
}

/// The kind of query carried in a message header, a 4-bit field.
#[derive(Copy, Clone, Debug, PartialEq, Eq, Structural)]
pub enum Opcode {
    Query,
    IQuery,
    Status,
    Notify,
    Update,
    DSO,
}

/// The wire code of an opcode.
pub open spec fn opcode_code(op: Opcode) -> u8 {
    match op {
        Opcode::Query => 0,
        Opcode::IQuery => 1,
        Opcode::Status => 2,
        Opcode::Notify => 4,
        Opcode::Update => 5,
        Opcode::DSO => 6,
    }
}

/// The partial map from wire codes to opcodes; unassigned codes have no opcode.
pub open spec fn opcode_from_code(v: u8) -> Option<Opcode> {
    if v == 0 {
        Some(Opcode::Query)
    } else if v == 1 {
        Some(Opcode::IQuery)
    } else if v == 2 {
        Some(Opcode::Status)
    } else if v == 4 {
        Some(Opcode::Notify)
    } else if v == 5 {
        Some(Opcode::Update)
    } else if v == 6 {
        Some(Opcode::DSO)
    } else {
        None
    }
}

impl Opcode {
    pub fn to_u8(self) -> (r: u8)
        ensures
            r == opcode_code(self),
    {
        match self {
            Opcode::Query => 0,
            Opcode::IQuery => 1,
            Opcode::Status => 2,
            Opcode::Notify => 4,
            Opcode::Update => 5,
            Opcode::DSO => 6,
        }
    }

    pub fn from_u8(v: u8) -> (r: Option<Opcode>)
        ensures
            r == opcode_from_code(v),
    {
        if v == 0 {
            Some(Opcode::Query)
        } else if v == 1 {
            Some(Opcode::IQuery)
        } else if v == 2 {
            Some(Opcode::Status)
        } else if v == 4 {
            Some(Opcode::Notify)
        } else if v == 5 {
            Some(Opcode::Update)
        } else if v == 6 {
            Some(Opcode::DSO)
        } else {
            None
        }
    }
}

/// Every opcode's wire code maps back to that opcode, and fits in 4 bits.
pub proof fn lemma_opcode_code_round_trip(op: Opcode)
    ensures
        opcode_from_code(opcode_code(op)) == Some(op),
        opcode_code(op) < 16,
{
}

impl Default for Opcode {
    fn default() -> (r: Self)
        ensures
            r == Opcode::Query,
    {
        Opcode::Query
    }
}

/// Response code carried in a message header, a 4-bit field on the wire.
#[derive(Copy, Clone, Debug, PartialEq, Eq, Structural)]
pub enum Rcode {
    NoError,
    FormErr,
    ServFail,
    NXDomain,
    NotImp,
    Refused,
    YXDomain,
    YXRRSet,
    NXRRSet,
    NotAuth,
    NotZone,
    DSOTYPENI,
}

/// The wire code of a response code.
pub open spec fn rcode_code(rc: Rcode) -> u8 {
    match rc {
        Rcode::NoError => 0,
        Rcode::FormErr => 1,
        Rcode::ServFail => 2,
        Rcode::NXDomain => 3,
        Rcode::NotImp => 4,
        Rcode::Refused => 5,
        Rcode::YXDomain => 6,
        Rcode::YXRRSet => 7,
        Rcode::NXRRSet => 8,
        Rcode::NotAuth => 9,
        Rcode::NotZone => 10,
        Rcode::DSOTYPENI => 11,
    }
}

/// The partial map from wire codes to response codes.
pub open spec fn rcode_from_code(v: u8) -> Option<Rcode> {
    if v == 0 {
        Some(Rcode::NoError)
    } else if v == 1 {
        Some(Rcode::FormErr)
    } else if v == 2 {
        Some(Rcode::ServFail)
    } else if v == 3 {
        Some(Rcode::NXDomain)
    } else if v == 4 {
        Some(Rcode::NotImp)
    } else if v == 5 {
        Some(Rcode::Refused)
    } else if v == 6 {
        Some(Rcode::YXDomain)
    } else if v == 7 {
        Some(Rcode::YXRRSet)
    } else if v == 8 {
        Some(Rcode::NXRRSet)
    } else if v == 9 {
        Some(Rcode::NotAuth)
    } else if v == 10 {
        Some(Rcode::NotZone)
    } else if v == 11 {
        Some(Rcode::DSOTYPENI)
    } else {
        None
    }
}

impl Rcode {
    pub fn to_u8(self) -> (r: u8)
        ensures
            r == rcode_code(self),
    {
        match self {
            Rcode::NoError => 0,
            Rcode::FormErr => 1,
            Rcode::ServFail => 2,
            Rcode::NXDomain => 3,
            Rcode::NotImp => 4,
            Rcode::Refused => 5,
            Rcode::YXDomain => 6,
            Rcode::YXRRSet => 7,
            Rcode::NXRRSet => 8,
            Rcode::NotAuth => 9,
            Rcode::NotZone => 10,
            Rcode::DSOTYPENI => 11,
        }
    }

    pub fn from_u8(v: u8) -> (r: Option<Rcode>)
        ensures
            r == rcode_from_code(v),
    {
        if v == 0 {
            Some(Rcode::NoError)
        } else if v == 1 {
            Some(Rcode::FormErr)
        } else if v == 2 {
            Some(Rcode::ServFail)
        } else if v == 3 {
            Some(Rcode::NXDomain)
        } else if v == 4 {
            Some(Rcode::NotImp)
        } else if v == 5 {
            Some(Rcode::Refused)
        } else if v == 6 {
            Some(Rcode::YXDomain)
        } else if v == 7 {
            Some(Rcode::YXRRSet)
        } else if v == 8 {
            Some(Rcode::NXRRSet)
        } else if v == 9 {
            Some(Rcode::NotAuth)
        } else if v == 10 {
            Some(Rcode::NotZone)
        } else if v == 11 {
            Some(Rcode::DSOTYPENI)
        } else {
            None
        }
    }
}

/// Every response code's wire code maps back to it, and fits in 4 bits.
pub proof fn lemma_rcode_code_round_trip(rc: Rcode)
    ensures
        rcode_from_code(rcode_code(rc)) == Some(rc),
        rcode_code(rc) < 16,
{
}

impl Default for Rcode {
    fn default() -> (r: Self)
        ensures
            r == Rcode::NoError,
    {
        Rcode::NoError
    }
}

/// Resource record type, for example A, CNAME or SOA.
#[derive(Copy, Clone, Debug, PartialEq, Eq, Structural)]
pub enum Type {
    Reserved,
    A,
    NS,
    CNAME,
    SOA,
    PTR,
    MX,
    TXT,
    AAAA,
    SRV,
    OPT,
    ANY,
}

/// The wire code of a record type.
pub open spec fn type_code(t: Type) -> u16 {
    match t {
        Type::Reserved => 0,
        Type::A => 1,
        Type::NS => 2,
        Type::CNAME => 5,
        Type::SOA => 6,
        Type::PTR => 12,
        Type::MX => 15,
        Type::TXT => 16,
        Type::AAAA => 28,
        Type::SRV => 33,
        Type::OPT => 41,
        Type::ANY => 255,
    }
}

/// The partial map from wire codes to record types.
pub open spec fn type_from_code(v: u16) -> Option<Type> {
    if v == 0 {
        Some(Type::Reserved)
    } else if v == 1 {
        Some(Type::A)
    } else if v == 2 {
        Some(Type::NS)
    } else if v == 5 {
        Some(Type::CNAME)
    } else if v == 6 {
        Some(Type::SOA)
    } else if v == 12 {
        Some(Type::PTR)
    } else if v == 15 {
        Some(Type::MX)
    } else if v == 16 {
        Some(Type::TXT)
    } else if v == 28 {
        Some(Type::AAAA)
    } else if v == 33 {
        Some(Type::SRV)
    } else if v == 41 {
        Some(Type::OPT)
    } else if v == 255 {
        Some(Type::ANY)
    } else {
        None
    }
}

impl Type {
    pub fn to_u16(self) -> (r: u16)
        ensures
            r == type_code(self),
    {
        match self {
            Type::Reserved => 0,
            Type::A => 1,
            Type::NS => 2,
            Type::CNAME => 5,
            Type::SOA => 6,
            Type::PTR => 12,
            Type::MX => 15,
            Type::TXT => 16,
            Type::AAAA => 28,
            Type::SRV => 33,
            Type::OPT => 41,
            Type::ANY => 255,
        }
    }

    pub fn from_u16(v: u16) -> (r: Option<Type>)
        ensures
            r == type_from_code(v),
    {
        if v == 0 {
            Some(Type::Reserved)
        } else if v == 1 {
            Some(Type::A)
        } else if v == 2 {
            Some(Type::NS)
        } else if v == 5 {
            Some(Type::CNAME)
        } else if v == 6 {
            Some(Type::SOA)
        } else if v == 12 {
            Some(Type::PTR)
        } else if v == 15 {
            Some(Type::MX)
        } else if v == 16 {
            Some(Type::TXT)
        } else if v == 28 {
            Some(Type::AAAA)
        } else if v == 33 {
            Some(Type::SRV)
        } else if v == 41 {
            Some(Type::OPT)
        } else if v == 255 {
            Some(Type::ANY)
        } else {
            None
        }
    }
}

/// Every record type's wire code maps back to that type.
pub proof fn lemma_type_code_round_trip(t: Type)
    ensures
        type_from_code(type_code(t)) == Some(t),
{
}

impl Default for Type {
    fn default() -> (r: Self)
        ensures
            r == Type::ANY,
    {
        Type::ANY
    }
}

/// Resource record class, for example Internet.
#[derive(Copy, Clone, Debug, PartialEq, Eq, Structural)]
pub enum Class {
    Reserved,
    Internet,
    CsNet,
    Chaos,
    Hesiod,
    NoneClass,
    Any,
}

/// The wire code of a record class.
pub open spec fn class_code(c: Class) -> u16 {
    match c {
        Class::Reserved => 0,
        Class::Internet => 1,
        Class::CsNet => 2,
        Class::Chaos => 3,
        Class::Hesiod => 4,
        Class::NoneClass => 254,
        Class::Any => 255,
    }
}

/// The partial map from wire codes to record classes.
pub open spec fn class_from_code(v: u16) -> Option<Class> {
    if v == 0 {
        Some(Class::Reserved)
    } else if v == 1 {
        Some(Class::Internet)
    } else if v == 2 {
        Some(Class::CsNet)
    } else if v == 3 {
        Some(Class::Chaos)
    } else if v == 4 {
        Some(Class::Hesiod)
    } else if v == 254 {
        Some(Class::NoneClass)
    } else if v == 255 {
        Some(Class::Any)
    } else {
        None
    }
}

impl Class {
    pub fn to_u16(self) -> (r: u16)
        ensures
            r == class_code(self),
    {
        match self {
            Class::Reserved => 0,
            Class::Internet => 1,
            Class::CsNet => 2,
            Class::Chaos => 3,
            Class::Hesiod => 4,
            Class::NoneClass => 254,
            Class::Any => 255,
        }
    }

    pub fn from_u16(v: u16) -> (r: Option<Class>)
        ensures
            r == class_from_code(v),
    {
        if v == 0 {
            Some(Class::Reserved)
        } else if v == 1 {
            Some(Class::Internet)
        } else if v == 2 {
            Some(Class::CsNet)
        } else if v == 3 {
            Some(Class::Chaos)
        } else if v == 4 {
            Some(Class::Hesiod)
        } else if v == 254 {
            Some(Class::NoneClass)
        } else if v == 255 {
            Some(Class::Any)
        } else {
            None
        }
    }
}

/// Every record class's wire code maps back to that class.
pub proof fn lemma_class_code_round_trip(c: Class)
    ensures
        class_from_code(class_code(c)) == Some(c),
{
}

impl Default for Class {
    fn default() -> (r: Self)
        ensures
            r == Class::Internet,
    {
        Class::Internet
    }
}

} // verus!
