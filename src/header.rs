//! The 12-byte header that starts every message.
//!
//! Layout: ID (2 bytes) | QR, OPCODE (4 bits), AA, TC, RD | RA, Z (3 bits),
//! RCODE (4 bits) | QDCOUNT | ANCOUNT | NSCOUNT | ARCOUNT, all big-endian.
use vstd::prelude::*;

use crate::field::{lemma_u16_round_trip, push_u16, read_u16, u16_at, u16_bytes};
use crate::{DecodeError, Parse};

verus! {

/// Whether a message holds a query or a reply.
#[derive(Clone, Copy, Debug, PartialEq, Eq, Structural, PartialOrd, Ord)]
pub enum Type {
    Query,
    Reply,
}

/// The kind of query.
#[derive(Clone, Copy, Debug, PartialEq, Eq, Structural, PartialOrd, Ord)]
pub enum OpCode {
    Query,
    IQuery,
    Status,
}

/// The outcome that a reply reports.
#[derive(Clone, Copy, Debug, PartialEq, Eq, Structural, PartialOrd, Ord)]
pub enum ResponseCode {
    NoError,
    FormatError,
    ServerFailure,
    NameError,
    NotImplemented,
    Refused,
}

/// Header of a DNS message (RFC 1035, section 4.1.1).
#[derive(Clone, Copy, Debug, PartialEq, Eq, Structural, PartialOrd, Ord)]
pub struct Header {
    /// An identifier used to match query with reply.
    pub id: u16,
    /// Whether the message holds a query or a reply.
    pub message_type: Type,
    /// The kind of query.
    pub op_code: OpCode,
    /// The responding name server is an authority for the domain name.
    pub authoritive_answer: bool,
    /// The message was truncated.
    pub truncated: bool,
    /// The name server is asked to resolve the name recursively.
    pub recursion_desired: bool,
    /// The name server supports recursive queries.
    pub recursion_available: bool,
    /// Reserved for future use; three bits, zero in requests.
    pub z: u8,
    /// The outcome that a reply reports.
    pub r_code: ResponseCode,
    /// Number of questions.
    pub qd_count: u16,
    /// Number of answer records.
    pub an_count: u16,
    /// Number of authority records.
    pub ns_count: u16,
    /// Number of additional records.
    pub ar_count: u16,
}

impl View for Header {
    type V = Header;

    open spec fn view(&self) -> Header {
        *self
    }
}

/// The message type that a one-bit field holds.
pub open spec fn message_type_of(bit: int) -> Option<Type> {
    if bit == 0 {
        Some(Type::Query)
    } else if bit == 1 {
        Some(Type::Reply)
    } else {
        None
    }
}

/// The value of a message type on the wire.
pub open spec fn message_type_code(t: Type) -> u8 {
    match t {
        Type::Query => 0,
        Type::Reply => 1,
    }
}

/// The opcode that a field holds, where it is one of the defined values.
pub open spec fn opcode_of(v: int) -> Option<OpCode> {
    if v == 0 {
        Some(OpCode::Query)
    } else if v == 1 {
        Some(OpCode::IQuery)
    } else if v == 2 {
        Some(OpCode::Status)
    } else {
        None
    }
}

/// The value of an opcode on the wire.
pub open spec fn opcode_code(op: OpCode) -> u8 {
    match op {
        OpCode::Query => 0,
        OpCode::IQuery => 1,
        OpCode::Status => 2,
    }
}

/// The response code that a field holds, where it is one of the defined values.
pub open spec fn rcode_of(v: int) -> Option<ResponseCode> {
    if v == 0 {
        Some(ResponseCode::NoError)
    } else if v == 1 {
        Some(ResponseCode::FormatError)
    } else if v == 2 {
        Some(ResponseCode::ServerFailure)
    } else if v == 3 {
        Some(ResponseCode::NameError)
    } else if v == 4 {
        Some(ResponseCode::NotImplemented)
    } else if v == 5 {
        Some(ResponseCode::Refused)
    } else {
        None
    }
}

/// The value of a response code on the wire.
pub open spec fn rcode_code(rc: ResponseCode) -> u8 {
    match rc {
        ResponseCode::NoError => 0,
        ResponseCode::FormatError => 1,
        ResponseCode::ServerFailure => 2,
        ResponseCode::NameError => 3,
        ResponseCode::NotImplemented => 4,
        ResponseCode::Refused => 5,
    }
}

/// The value of a one-bit flag.
pub open spec fn bit(b: bool) -> int {
    if b {
        1
    } else {
        0
    }
}

/// The first flags byte: QR, OPCODE, AA, TC, RD.
pub open spec fn flags_hi(h: Header) -> u8 {
    (message_type_code(h.message_type) * 128 + opcode_code(h.op_code) * 8 + bit(
        h.authoritive_answer,
    ) * 4 + bit(h.truncated) * 2 + bit(h.recursion_desired)) as u8
}

/// The second flags byte: RA, Z, RCODE.
pub open spec fn flags_lo(h: Header) -> u8 {
    (bit(h.recursion_available) * 128 + h.z * 16 + rcode_code(h.r_code)) as u8
}

/// The twelve bytes of a header.
pub open spec fn header_bytes(h: Header) -> Seq<u8> {
    u16_bytes(h.id) + seq![flags_hi(h), flags_lo(h)] + u16_bytes(h.qd_count) + u16_bytes(
        h.an_count,
    ) + u16_bytes(h.ns_count) + u16_bytes(h.ar_count)
}

/// Decoding of the header that starts at `pos`. The bytes are taken in order,
/// and each enumerated field is checked as soon as its byte is there.
pub open spec fn header_at(buf: Seq<u8>, pos: int) -> Parse<Header> {
    if pos + 3 > buf.len() {
        Parse::Short
    } else if opcode_of((buf[pos + 2] / 8 % 16) as int) is None {
        Parse::Illegal
    } else if pos + 4 > buf.len() {
        Parse::Short
    } else if rcode_of((buf[pos + 3] % 16) as int) is None {
        Parse::Illegal
    } else if pos + 12 > buf.len() {
        Parse::Short
    } else {
        let hi = buf[pos + 2];
        let lo = buf[pos + 3];
        Parse::Done(
            Header {
                id: u16_at(buf, pos),
                message_type: message_type_of((hi / 128) as int)->0,
                op_code: opcode_of((hi / 8 % 16) as int)->0,
                authoritive_answer: hi / 4 % 2 == 1,
                truncated: hi / 2 % 2 == 1,
                recursion_desired: hi % 2 == 1,
                recursion_available: lo / 128 == 1,
                z: lo / 16 % 8,
                r_code: rcode_of((lo % 16) as int)->0,
                qd_count: u16_at(buf, pos + 4),
                an_count: u16_at(buf, pos + 6),
                ns_count: u16_at(buf, pos + 8),
                ar_count: u16_at(buf, pos + 10),
            },
            pos + 12,
        )
    }
}

impl Type {
    /// The message type that a one-bit field holds.
    pub fn try_from_bit(value: u8) -> (r: Result<Type, DecodeError>)
        ensures
            match message_type_of(value as int) {
                Some(t) => r == Ok::<Type, DecodeError>(t),
                None => r is Err && r->Err_0 is IllegalValue,
            },
    {
        match value {
            0 => Ok(Type::Query),
            1 => Ok(Type::Reply),
            _ => Err(
                DecodeError::IllegalValue(
                    "failed to parse value as Type: not a valid value".to_owned(),
                ),
            ),
        }
    }

    /// The value of the message type on the wire.
    pub fn code(self) -> (r: u8)
        ensures
            r == message_type_code(self),
    {
        match self {
            Type::Query => 0,
            Type::Reply => 1,
        }
    }
}

impl OpCode {
    /// The opcode that a field holds; a value outside the defined ones is
    /// illegal.
    pub fn try_from_code(value: u8) -> (r: Result<OpCode, DecodeError>)
        ensures
            match opcode_of(value as int) {
                Some(op) => r == Ok::<OpCode, DecodeError>(op),
                None => r is Err && r->Err_0 is IllegalValue,
            },
    {
        match value {
            0 => Ok(OpCode::Query),
            1 => Ok(OpCode::IQuery),
            2 => Ok(OpCode::Status),
            _ => Err(
                DecodeError::IllegalValue(
                    "failed to parse value as OpCode: not a valid value".to_owned(),
                ),
            ),
        }
    }

    /// The value of the opcode on the wire.
    pub fn code(self) -> (r: u8)
        ensures
            r == opcode_code(self),
    {
        match self {
            OpCode::Query => 0,
            OpCode::IQuery => 1,
            OpCode::Status => 2,
        }
    }
}

impl ResponseCode {
    /// The response code that a field holds; a value outside the defined ones
    /// is illegal.
    pub fn try_from_code(value: u8) -> (r: Result<ResponseCode, DecodeError>)
        ensures
            match rcode_of(value as int) {
                Some(rc) => r == Ok::<ResponseCode, DecodeError>(rc),
                None => r is Err && r->Err_0 is IllegalValue,
            },
    {
        match value {
            0 => Ok(ResponseCode::NoError),
            1 => Ok(ResponseCode::FormatError),
            2 => Ok(ResponseCode::ServerFailure),
            3 => Ok(ResponseCode::NameError),
            4 => Ok(ResponseCode::NotImplemented),
            5 => Ok(ResponseCode::Refused),
            _ => Err(
                DecodeError::IllegalValue(
                    "failed to parse value as ResponseCode: not a valid value".to_owned(),
                ),
            ),
        }
    }

    /// The value of the response code on the wire.
    pub fn code(self) -> (r: u8)
        ensures
            r == rcode_code(self),
    {
        match self {
            ResponseCode::NoError => 0,
            ResponseCode::FormatError => 1,
            ResponseCode::ServerFailure => 2,
            ResponseCode::NameError => 3,
            ResponseCode::NotImplemented => 4,
            ResponseCode::Refused => 5,
        }
    }
}

proof fn lemma_flags(qr: u8, op: u8, aa: u8, tc: u8, rd: u8, ra: u8, z: u8, rc: u8)
    by (bit_vector)
    requires
        qr < 2,
        op < 16,
        aa < 2,
        tc < 2,
        rd < 2,
        ra < 2,
        z < 8,
        rc < 16,
    ensures
        ((qr * 128 + op * 8 + aa * 4 + tc * 2 + rd) as u8) / 128 == qr,
        ((qr * 128 + op * 8 + aa * 4 + tc * 2 + rd) as u8) / 8 % 16 == op,
        ((qr * 128 + op * 8 + aa * 4 + tc * 2 + rd) as u8) / 4 % 2 == aa,
        ((qr * 128 + op * 8 + aa * 4 + tc * 2 + rd) as u8) / 2 % 2 == tc,
        ((qr * 128 + op * 8 + aa * 4 + tc * 2 + rd) as u8) % 2 == rd,
        ((ra * 128 + z * 16 + rc) as u8) / 128 == ra,
        ((ra * 128 + z * 16 + rc) as u8) / 16 % 8 == z,
        ((ra * 128 + z * 16 + rc) as u8) % 16 == rc,
{
}

/// Decoding the twelve bytes of a header gives the header back, wherever they
/// stand in a message.
pub proof fn lemma_header_round_trip(buf: Seq<u8>, pos: int, h: Header)
    requires
        h.z < 8,
        0 <= pos,
        pos + 12 <= buf.len(),
        buf.subrange(pos, pos + 12) == header_bytes(h),
    ensures
        header_at(buf, pos) == Parse::Done(h, pos + 12),
{
    let w = header_bytes(h);
    assert forall|i: int| 0 <= i < 12 implies buf[pos + i] == #[trigger] w[i] by {
        assert(buf[pos + i] == buf.subrange(pos, pos + 12)[i]);
    }
    let id = u16_bytes(h.id);
    let q = u16_bytes(h.qd_count);
    let a = u16_bytes(h.an_count);
    let n = u16_bytes(h.ns_count);
    let d = u16_bytes(h.ar_count);
    assert(w =~= seq![
        id[0],
        id[1],
        flags_hi(h),
        flags_lo(h),
        q[0],
        q[1],
        a[0],
        a[1],
        n[0],
        n[1],
        d[0],
        d[1],
    ]);
    assert(w[2] == flags_hi(h));
    assert(w[3] == flags_lo(h));
    assert(buf[pos + 2] == flags_hi(h));
    assert(buf[pos + 3] == flags_lo(h));
    assert(buf.subrange(pos, pos + 2) =~= id);
    assert(buf.subrange(pos + 4, pos + 6) =~= u16_bytes(h.qd_count));
    assert(buf.subrange(pos + 6, pos + 8) =~= u16_bytes(h.an_count));
    assert(buf.subrange(pos + 8, pos + 10) =~= u16_bytes(h.ns_count));
    assert(buf.subrange(pos + 10, pos + 12) =~= u16_bytes(h.ar_count));
    lemma_flags(
        message_type_code(h.message_type),
        opcode_code(h.op_code),
        bit(h.authoritive_answer) as u8,
        bit(h.truncated) as u8,
        bit(h.recursion_desired) as u8,
        bit(h.recursion_available) as u8,
        h.z,
        rcode_code(h.r_code),
    );
    lemma_u16_round_trip(buf, pos, h.id);
    lemma_u16_round_trip(buf, pos + 4, h.qd_count);
    lemma_u16_round_trip(buf, pos + 6, h.an_count);
    lemma_u16_round_trip(buf, pos + 8, h.ns_count);
    lemma_u16_round_trip(buf, pos + 10, h.ar_count);
    let d = header_at(buf, pos)->Done_0;
    assert(d.message_type == h.message_type);
    assert(d.op_code == h.op_code);
    assert(d.r_code == h.r_code);
}

/// For every header whose reserved field fits in its three bits, decoding its
/// bytes gives it back.
pub proof fn lemma_header_decode_encode(h: Header)
    requires
        h.z < 8,
    ensures
        header_at(header_bytes(h), 0) == Parse::Done(h, 12),
{
    assert(header_bytes(h).subrange(0, 12) =~= header_bytes(h));
    lemma_header_round_trip(header_bytes(h), 0, h);
}

/// Cutting the message short never turns a header that decodes into another
/// header or into an illegal one; it is found short when the cut falls before
/// its twelfth byte.
pub proof fn lemma_header_truncated(buf: Seq<u8>, pos: int, k: int)
    requires
        0 <= pos,
        0 <= k <= buf.len(),
        header_at(buf, pos) is Done,
    ensures
        header_at(buf.take(k), pos) == header_at(buf, pos) || header_at(buf.take(k), pos) is Short,
        k < pos + 12 ==> header_at(buf.take(k), pos) is Short,
{
    let cut = buf.take(k);
    if k >= pos + 3 {
        assert(cut[pos + 2] == buf[pos + 2]);
    }
    if k >= pos + 4 {
        assert(cut[pos + 3] == buf[pos + 3]);
    }
    if k >= pos + 12 {
        assert(cut[pos] == buf[pos]);
        assert(cut[pos + 1] == buf[pos + 1]);
        assert(cut[pos + 4] == buf[pos + 4]);
        assert(cut[pos + 5] == buf[pos + 5]);
        assert(cut[pos + 6] == buf[pos + 6]);
        assert(cut[pos + 7] == buf[pos + 7]);
        assert(cut[pos + 8] == buf[pos + 8]);
        assert(cut[pos + 9] == buf[pos + 9]);
        assert(cut[pos + 10] == buf[pos + 10]);
        assert(cut[pos + 11] == buf[pos + 11]);
    }
}

fn flag(b: bool) -> (r: u8)
    ensures
        r == bit(b),
{
    if b {
        1
    } else {
        0
    }
}

impl Header {
    /// Decodes the header that starts at `pos`; gives it with the position
    /// just past it.
    pub fn decode(buf: &[u8], pos: usize) -> (r: Result<(Header, usize), DecodeError>)
        ensures
            crate::agrees(r, header_at(buf@, pos as int)),
    {
        if pos >= buf.len() || buf.len() - pos < 3 {
            return Err(DecodeError::NotEnoughBytes);
        }
        let id = read_u16(buf, pos)?;
        let hi = buf[pos + 2];
        let message_type = Type::try_from_bit(hi / 128)?;
        let op_code = OpCode::try_from_code(hi / 8 % 16)?;
        if buf.len() - pos < 4 {
            return Err(DecodeError::NotEnoughBytes);
        }
        let lo = buf[pos + 3];
        let r_code = ResponseCode::try_from_code(lo % 16)?;
        let qd_count = read_u16(buf, pos + 4)?;
        let an_count = read_u16(buf, pos + 6)?;
        let ns_count = read_u16(buf, pos + 8)?;
        let ar_count = read_u16(buf, pos + 10)?;
        let header = Header {
            id,
            message_type,
            op_code,
            authoritive_answer: hi / 4 % 2 == 1,
            truncated: hi / 2 % 2 == 1,
            recursion_desired: hi % 2 == 1,
            recursion_available: lo / 128 == 1,
            z: lo / 16 % 8,
            r_code,
            qd_count,
            an_count,
            ns_count,
            ar_count,
        };
        Ok((header, pos + 12))
    }

    /// The twelve bytes of the header. The reserved field is written as it is
    /// stored, so it must fit in its three bits.
    pub fn into_bytes(self) -> (r: Vec<u8>)
        requires
            self.z < 8,
        ensures
            r@ == header_bytes(self),
    {
        let mut header: Vec<u8> = Vec::with_capacity(12);
        push_u16(&mut header, self.id);
        let hi: u8 = self.message_type.code() * 128 + self.op_code.code() * 8 + flag(
            self.authoritive_answer,
        ) * 4 + flag(self.truncated) * 2 + flag(self.recursion_desired);
        header.push(hi);
        let lo: u8 = flag(self.recursion_available) * 128 + self.z * 16 + self.r_code.code();
        header.push(lo);
        push_u16(&mut header, self.qd_count);
        push_u16(&mut header, self.an_count);
        push_u16(&mut header, self.ns_count);
        push_u16(&mut header, self.ar_count);
        assert(header@ =~= header_bytes(self));
        header
    }
}

} // verus!
