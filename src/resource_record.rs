//! Resource records: a name, a type, a class, a time to live and opaque data
//! (RFC 1035, section 4.1.3).
use vstd::prelude::*;

use crate::domain_name::{
    is_plain_name, is_text_name, labels_at, lemma_labels_truncated, lemma_parse_written, lemma_parsed_labels_fit,
    lemma_plain_name, name_at, take_name, MAX_POINTER_HOPS,
};
use crate::field::{
    lemma_u16_round_trip, lemma_u32_round_trip, push_bytes, push_u16, push_u32, read_u16, read_u32,
    take_bytes, u16_at, u16_bytes, u32_at, u32_bytes,
};
use crate::{DecodeError, Parse};

verus! {

/// A resource record.
#[derive(Clone, Debug, Eq, Ord, PartialEq, PartialOrd)]
pub struct ResourceRecord {
    /// The domain name that the record is about, in wire form. A decoded
    /// record holds it without pointers; a record built to be sent may hold
    /// a pointer into the message.
    pub name: Vec<u8>,
    /// The type of the record.
    pub r_type: Type,
    /// The class of the record.
    pub class: Class,
    /// How many seconds the record may be kept.
    pub ttl: u32,
    /// The length of `rdata` in bytes.
    pub rdlength: u16,
    /// The data of the record; what it means depends on the type and class.
    pub rdata: Vec<u8>,
}

/// What a resource record holds.
pub ghost struct RecordView {
    pub name: Seq<u8>,
    pub r_type: Type,
    pub class: Class,
    pub ttl: u32,
    pub rdlength: u16,
    pub rdata: Seq<u8>,
}

impl View for ResourceRecord {
    type V = RecordView;

    open spec fn view(&self) -> RecordView {
        RecordView {
            name: self.name@,
            r_type: self.r_type,
            class: self.class,
            ttl: self.ttl,
            rdlength: self.rdlength,
            rdata: self.rdata@,
        }
    }
}

/// Types of resource records (RFC 1035, section 3.2.2, and AAAA from RFC 3596).
#[derive(Clone, Copy, Debug, PartialEq, Eq, Structural, PartialOrd, Ord)]
pub enum Type {
    A,
    NS,
    MD,
    MF,
    CNAME,
    SOA,
    MB,
    MG,
    MR,
    Null,
    WKS,
    PTR,
    HINFO,
    MINFO,
    MX,
    TXT,
    /// IPv6 host address.
    AAAA,
}

/// Classes of resource records (RFC 1035, section 3.2.4).
#[derive(Clone, Copy, Debug, PartialEq, Eq, Structural, PartialOrd, Ord)]
pub enum Class {
    /// The Internet.
    IN,
    CS,
    CH,
    HS,
}

/// The value of a record type on the wire.
pub open spec fn type_code(t: Type) -> u16 {
    match t {
        Type::A => 1,
        Type::NS => 2,
        Type::MD => 3,
        Type::MF => 4,
        Type::CNAME => 5,
        Type::SOA => 6,
        Type::MB => 7,
        Type::MG => 8,
        Type::MR => 9,
        Type::Null => 10,
        Type::WKS => 11,
        Type::PTR => 12,
        Type::HINFO => 13,
        Type::MINFO => 14,
        Type::MX => 15,
        Type::TXT => 16,
        Type::AAAA => 28,
    }
}

/// The record type that a field holds, where it is one of the defined values.
pub open spec fn type_of(v: u16) -> Option<Type> {
    if exists|t: Type| type_code(t) == v {
        Some(choose|t: Type| type_code(t) == v)
    } else {
        None
    }
}

/// The value of a record class on the wire.
pub open spec fn class_code(c: Class) -> u16 {
    match c {
        Class::IN => 1,
        Class::CS => 2,
        Class::CH => 3,
        Class::HS => 4,
    }
}

/// The record class that a field holds, where it is one of the defined values.
pub open spec fn class_of(v: u16) -> Option<Class> {
    if exists|c: Class| class_code(c) == v {
        Some(choose|c: Class| class_code(c) == v)
    } else {
        None
    }
}

/// Decoding of the resource record that starts at `pos`: its name, the type
/// and the class, each checked as soon as it is read, the time to live, the
/// length of the data and that many bytes of data.
pub open spec fn record_at(buf: Seq<u8>, pos: int) -> Parse<RecordView> {
    match name_at(buf, pos) {
        Parse::Done(name, e) => if e + 2 > buf.len() {
            Parse::Short
        } else if type_of(u16_at(buf, e)) is None {
            Parse::Illegal
        } else if e + 4 > buf.len() {
            Parse::Short
        } else if class_of(u16_at(buf, e + 2)) is None {
            Parse::Illegal
        } else if e + 10 > buf.len() {
            Parse::Short
        } else if e + 10 + u16_at(buf, e + 8) > buf.len() {
            Parse::Short
        } else {
            let rdlength = u16_at(buf, e + 8);
            Parse::Done(
                RecordView {
                    name,
                    r_type: type_of(u16_at(buf, e))->0,
                    class: class_of(u16_at(buf, e + 2))->0,
                    ttl: u32_at(buf, e + 4),
                    rdlength,
                    rdata: buf.subrange(e + 10, e + 10 + rdlength),
                },
                e + 10 + rdlength,
            )
        },
        Parse::Short => Parse::Short,
        Parse::Illegal => Parse::Illegal,
    }
}

/// The length field of a record agrees with its data.
pub open spec fn record_fits(r: RecordView) -> bool {
    r.rdlength == r.rdata.len()
}

/// The bytes of a record, its name written as it is held.
pub open spec fn record_bytes(r: RecordView) -> Seq<u8> {
    r.name + u16_bytes(type_code(r.r_type)) + u16_bytes(class_code(r.class)) + u32_bytes(r.ttl)
        + u16_bytes(r.rdlength) + r.rdata
}

/// Decoding the bytes of a record whose name is written without pointers, as
/// valid UTF-8 text, and whose length field agrees with its data gives the record back, wherever
/// the bytes stand in a message.
pub proof fn lemma_record_round_trip(buf: Seq<u8>, pos: int, r: RecordView)
    requires
        is_text_name(r.name),
        record_fits(r),
        0 <= pos,
        pos + record_bytes(r).len() <= buf.len(),
        buf.subrange(pos, pos + record_bytes(r).len()) == record_bytes(r),
    ensures
        record_at(buf, pos) == Parse::Done(r, pos + record_bytes(r).len()),
{
    let rb = record_bytes(r);
    let whole = buf.subrange(pos, pos + rb.len());
    assert(is_plain_name(r.name));
    let labels = lemma_plain_name(r.name);
    let e = pos + r.name.len();
    assert(buf.subrange(pos, e) =~= r.name) by {
        assert forall|i: int| 0 <= i < r.name.len() implies #[trigger] buf.subrange(pos, e)[i]
            == r.name[i] by {
            assert(buf.subrange(pos, e)[i] == whole[i]);
        }
    }
    lemma_parse_written(buf, pos, labels, MAX_POINTER_HOPS as nat, 0);
    let tc = u16_bytes(type_code(r.r_type));
    let cc = u16_bytes(class_code(r.class));
    let tl = u32_bytes(r.ttl);
    let ln = u16_bytes(r.rdlength);
    assert(rb =~= r.name + tc + cc + tl + ln + r.rdata);
    assert(buf.subrange(e, e + 2) =~= tc) by {
        assert forall|i: int| 0 <= i < 2 implies #[trigger] buf.subrange(e, e + 2)[i] == tc[i] by {
            assert(buf.subrange(e, e + 2)[i] == whole[r.name.len() + i]);
        }
    }
    assert(buf.subrange(e + 2, e + 4) =~= cc) by {
        assert forall|i: int| 0 <= i < 2 implies #[trigger] buf.subrange(e + 2, e + 4)[i]
            == cc[i] by {
            assert(buf.subrange(e + 2, e + 4)[i] == whole[r.name.len() + 2 + i]);
        }
    }
    assert(buf.subrange(e + 4, e + 8) =~= tl) by {
        assert forall|i: int| 0 <= i < 4 implies #[trigger] buf.subrange(e + 4, e + 8)[i]
            == tl[i] by {
            assert(buf.subrange(e + 4, e + 8)[i] == whole[r.name.len() + 4 + i]);
        }
    }
    assert(buf.subrange(e + 8, e + 10) =~= ln) by {
        assert forall|i: int| 0 <= i < 2 implies #[trigger] buf.subrange(e + 8, e + 10)[i]
            == ln[i] by {
            assert(buf.subrange(e + 8, e + 10)[i] == whole[r.name.len() + 8 + i]);
        }
    }
    let d = r.rdata.len() as int;
    assert(buf.subrange(e + 10, e + 10 + d) =~= r.rdata) by {
        assert forall|i: int| 0 <= i < d implies #[trigger] buf.subrange(e + 10, e + 10 + d)[i]
            == r.rdata[i] by {
            assert(buf.subrange(e + 10, e + 10 + d)[i] == whole[r.name.len() + 10 + i]);
        }
    }
    lemma_u16_round_trip(buf, e, type_code(r.r_type));
    lemma_u16_round_trip(buf, e + 2, class_code(r.class));
    lemma_u32_round_trip(buf, e + 4, r.ttl);
    lemma_u16_round_trip(buf, e + 8, r.rdlength);
    assert(type_code(r.r_type) == u16_at(buf, e));
    assert(class_code(r.class) == u16_at(buf, e + 2));
}

/// For every record whose name is written without pointers, as valid UTF-8
/// text, and whose length field agrees with its data, decoding its bytes gives it back.
pub proof fn lemma_record_decode_encode(r: RecordView)
    requires
        is_text_name(r.name),
        record_fits(r),
    ensures
        record_at(record_bytes(r), 0) == Parse::Done(r, record_bytes(r).len() as int),
{
    assert(record_bytes(r).subrange(0, record_bytes(r).len() as int) =~= record_bytes(r));
    lemma_record_round_trip(record_bytes(r), 0, r);
}

/// Cutting the message short never turns a record that decodes into another
/// record or into an illegal one; it is found short when the cut falls before
/// the end of the record.
pub proof fn lemma_record_truncated(buf: Seq<u8>, pos: int, k: int)
    requires
        0 <= k <= buf.len(),
        record_at(buf, pos) is Done,
    ensures
        record_at(buf.take(k), pos) == record_at(buf, pos) || record_at(buf.take(k), pos) is Short,
        k < record_at(buf, pos)->Done_1 ==> record_at(buf.take(k), pos) is Short,
{
    let cut = buf.take(k);
    lemma_labels_truncated(buf, pos, MAX_POINTER_HOPS as nat, 0, k);
    lemma_parsed_labels_fit(buf, pos, MAX_POINTER_HOPS as nat, 0);
    if labels_at(cut, pos) is Done {
        let e = labels_at(buf, pos)->Done_1;
        if e + 2 <= k {
            assert(cut[e] == buf[e]);
            assert(cut[e + 1] == buf[e + 1]);
        }
        if e + 4 <= k {
            assert(cut[e + 2] == buf[e + 2]);
            assert(cut[e + 3] == buf[e + 3]);
        }
        if e + 10 <= k {
            assert(cut[e + 4] == buf[e + 4]);
            assert(cut[e + 5] == buf[e + 5]);
            assert(cut[e + 6] == buf[e + 6]);
            assert(cut[e + 7] == buf[e + 7]);
            assert(cut[e + 8] == buf[e + 8]);
            assert(cut[e + 9] == buf[e + 9]);
            let end = e + 10 + u16_at(buf, e + 8);
            if end <= k {
                assert(cut.subrange(e + 10, end) =~= buf.subrange(e + 10, end));
            }
        }
    }
}

impl Type {
    /// The record type that a field holds; a value outside the defined ones is
    /// illegal.
    pub fn try_from_code(value: u16) -> (r: Result<Type, DecodeError>)
        ensures
            match type_of(value) {
                Some(t) => r == Ok::<Type, DecodeError>(t),
                None => r is Err && r->Err_0 is IllegalValue,
            },
    {
        let r = match value {
            1 => Type::A,
            2 => Type::NS,
            3 => Type::MD,
            4 => Type::MF,
            5 => Type::CNAME,
            6 => Type::SOA,
            7 => Type::MB,
            8 => Type::MG,
            9 => Type::MR,
            10 => Type::Null,
            11 => Type::WKS,
            12 => Type::PTR,
            13 => Type::HINFO,
            14 => Type::MINFO,
            15 => Type::MX,
            16 => Type::TXT,
            28 => Type::AAAA,
            _ => {
                return Err(
                    DecodeError::IllegalValue(
                        "failed to parse value as Type: not a valid value".to_owned(),
                    ),
                );
            },
        };
        assert(type_code(r) == value);
        Ok(r)
    }

    /// The two bytes of the record type on the wire.
    pub fn into_bytes(self) -> (r: Vec<u8>)
        ensures
            r@ == u16_bytes(type_code(self)),
    {
        let low_byte: u8 = match self {
            Type::A => 1,
            Type::NS => 2,
            Type::MD => 3,
            Type::MF => 4,
            Type::CNAME => 5,
            Type::SOA => 6,
            Type::MB => 7,
            Type::MG => 8,
            Type::MR => 9,
            Type::Null => 10,
            Type::WKS => 11,
            Type::PTR => 12,
            Type::HINFO => 13,
            Type::MINFO => 14,
            Type::MX => 15,
            Type::TXT => 16,
            Type::AAAA => 28,
        };
        let r = vec![0, low_byte];
        assert(r@ =~= u16_bytes(type_code(self)));
        r
    }
}

impl Class {
    /// The record class that a field holds; a value outside the defined ones
    /// is illegal.
    pub fn try_from_code(value: u16) -> (r: Result<Class, DecodeError>)
        ensures
            match class_of(value) {
                Some(c) => r == Ok::<Class, DecodeError>(c),
                None => r is Err && r->Err_0 is IllegalValue,
            },
    {
        let r = match value {
            1 => Class::IN,
            2 => Class::CS,
            3 => Class::CH,
            4 => Class::HS,
            _ => {
                return Err(
                    DecodeError::IllegalValue(
                        "failed to parse value as Class: not a valid value".to_owned(),
                    ),
                );
            },
        };
        assert(class_code(r) == value);
        Ok(r)
    }

    /// The two bytes of the record class on the wire.
    pub fn into_bytes(self) -> (r: Vec<u8>)
        ensures
            r@ == u16_bytes(class_code(self)),
    {
        let low_byte: u8 = match self {
            Class::IN => 1,
            Class::CS => 2,
            Class::CH => 3,
            Class::HS => 4,
        };
        let r = vec![0, low_byte];
        assert(r@ =~= u16_bytes(class_code(self)));
        r
    }
}

impl ResourceRecord {
    /// Decodes the resource record that starts at `pos`, following pointers in
    /// its name; gives it with the position just past it.
    pub fn decode(buf: &[u8], pos: usize) -> (r: Result<(ResourceRecord, usize), DecodeError>)
        ensures
            crate::agrees(r, record_at(buf@, pos as int)),
    {
        let (name, end) = take_name(buf, pos)?;
        let n = buf.len();
        let r_type = Type::try_from_code(read_u16(buf, end)?)?;
        let class = Class::try_from_code(read_u16(buf, end + 2)?)?;
        let ttl = read_u32(buf, end + 4)?;
        let rdlength = read_u16(buf, end + 8)?;
        let start = end + 10;
        if n - start < rdlength as usize {
            return Err(DecodeError::NotEnoughBytes);
        }
        let rdata = take_bytes(buf, start, rdlength as usize);
        let record = ResourceRecord { name: name.0, r_type, class, ttl, rdlength, rdata };
        Ok((record, start + rdlength as usize))
    }

    /// Whether the length field agrees with the data.
    pub fn is_encodable(&self) -> (r: bool)
        ensures
            r == record_fits(self@),
    {
        self.rdlength as usize == self.rdata.len()
    }

    /// The bytes of the record, its name written as it is held.
    pub fn into_bytes(self) -> (r: Vec<u8>)
        requires
            record_fits(self@),
        ensures
            r@ == record_bytes(self@),
    {
        let mut output: Vec<u8> = Vec::new();
        self.write_to(&mut output);
        output
    }

    /// Appends the bytes of the record to `output`, its name written as it is
    /// held.
    pub fn write_to(&self, output: &mut Vec<u8>)
        requires
            record_fits(self@),
        ensures
            final(output)@ == old(output)@ + record_bytes(self@),
    {
        push_bytes(output, self.name.as_slice());
        let mut t = self.r_type.into_bytes();
        output.append(&mut t);
        let mut c = self.class.into_bytes();
        output.append(&mut c);
        push_u32(output, self.ttl);
        push_u16(output, self.rdlength);
        push_bytes(output, self.rdata.as_slice());
        assert(final(output)@ =~= old(output)@ + record_bytes(self@));
    }
}

} // verus!
