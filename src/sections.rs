//! The question section: a name, the type of query and its class
//! (RFC 1035, section 4.1.2).
use vstd::prelude::*;
use vstd::utf8::*;

use crate::domain_name::{
    into_string, labels_at, labels_fit_check, lemma_labels_truncated, lemma_parse_written,
    lemma_parsed_labels_fit, lemma_text_labels_dotted, name_wire, take_name,
    text_fits, text_labels, text_of_labels, text_to_labels, wire_of, MAX_POINTER_HOPS,
};
use crate::field::{lemma_u16_round_trip, push_u16, read_u16, u16_at, u16_bytes};
use crate::{DecodeError, Parse};

verus! {

/// A question: the name asked about, the type of query and its class.
#[derive(Clone, Debug, Eq, Ord, PartialEq, PartialOrd)]
pub struct Question {
    /// The name, as labels joined by dots.
    pub qname: String,
    /// The type of query.
    pub qtype: QType,
    /// The class of query.
    pub qclass: QClass,
}

/// What a question holds, with its name as text.
pub ghost struct QuestionView {
    pub qname: Seq<char>,
    pub qtype: QType,
    pub qclass: QClass,
}

impl View for Question {
    type V = QuestionView;

    open spec fn view(&self) -> QuestionView {
        QuestionView { qname: self.qname@, qtype: self.qtype, qclass: self.qclass }
    }
}

/// Types of query: the types of resource records and three more that ask for
/// several at once.
#[derive(Clone, Copy, Debug, PartialEq, Eq, Structural, PartialOrd, Ord)]
pub enum QType {
    A,
    NS,
    MD,
    MF,
    CNAME,
    SOA,
    MB,
    MG,
    MR,
    Null,
    WKS,
    PTR,
    HINFO,
    MINFO,
    MX,
    TXT,
    AXFR,
    MAILB,
    MAILA,
}

/// Classes of query: the classes of resource records and any class.
#[derive(Clone, Copy, Debug, PartialEq, Eq, Structural, PartialOrd, Ord)]
pub enum QClass {
    IN,
    CS,
    CH,
    HS,
    Any,
}

/// The value of a query type on the wire.
pub open spec fn qtype_code(t: QType) -> u16 {
    match t {
        QType::A => 1,
        QType::NS => 2,
        QType::MD => 3,
        QType::MF => 4,
        QType::CNAME => 5,
        QType::SOA => 6,
        QType::MB => 7,
        QType::MG => 8,
        QType::MR => 9,
        QType::Null => 10,
        QType::WKS => 11,
        QType::PTR => 12,
        QType::HINFO => 13,
        QType::MINFO => 14,
        QType::MX => 15,
        QType::TXT => 16,
        QType::AXFR => 252,
        QType::MAILB => 253,
        QType::MAILA => 254,
    }
}

/// The query type that a field holds, where it is one of the defined values.
pub open spec fn qtype_of(v: u16) -> Option<QType> {
    if exists|t: QType| qtype_code(t) == v {
        Some(choose|t: QType| qtype_code(t) == v)
    } else {
        None
    }
}

/// The value of a query class on the wire.
pub open spec fn qclass_code(c: QClass) -> u16 {
    match c {
        QClass::IN => 1,
        QClass::CS => 2,
        QClass::CH => 3,
        QClass::HS => 4,
        QClass::Any => 255,
    }
}

/// The query class that a field holds, where it is one of the defined values.
pub open spec fn qclass_of(v: u16) -> Option<QClass> {
    if exists|c: QClass| qclass_code(c) == v {
        Some(choose|c: QClass| qclass_code(c) == v)
    } else {
        None
    }
}

/// Decoding of the question that starts at `pos`: its name, which must be
/// valid UTF-8 text, then the type and the class, each checked as soon as it
/// is read.
pub open spec fn question_at(buf: Seq<u8>, pos: int) -> Parse<QuestionView> {
    match labels_at(buf, pos) {
        Parse::Done(labels, e) => match text_of_labels(labels) {
            None => Parse::Illegal,
            Some(text) => if e + 2 > buf.len() {
                Parse::Short
            } else if qtype_of(u16_at(buf, e)) is None {
                Parse::Illegal
            } else if e + 4 > buf.len() {
                Parse::Short
            } else if qclass_of(u16_at(buf, e + 2)) is None {
                Parse::Illegal
            } else {
                Parse::Done(
                    QuestionView {
                        qname: text,
                        qtype: qtype_of(u16_at(buf, e))->0,
                        qclass: qclass_of(u16_at(buf, e + 2))->0,
                    },
                    e + 4,
                )
            },
        },
        Parse::Short => Parse::Short,
        Parse::Illegal => Parse::Illegal,
    }
}

/// The name of a question can be written: its text splits into labels of 1
/// to 63 bytes that fit in the length limit of a name.
pub open spec fn question_fits(q: QuestionView) -> bool {
    text_fits(encode_utf8(q.qname))
}

/// The bytes of a question: its name without compression, then the type and
/// the class.
pub open spec fn question_bytes(q: QuestionView) -> Seq<u8> {
    name_wire(text_labels(encode_utf8(q.qname))) + u16_bytes(qtype_code(q.qtype)) + u16_bytes(
        qclass_code(q.qclass),
    )
}

impl Question {
    /// Decodes the question that starts at `pos`, following pointers in its
    /// name; gives it with the position just past it.
    pub fn decode(buf: &[u8], pos: usize) -> (r: Result<(Question, usize), DecodeError>)
        ensures
            crate::agrees(r, question_at(buf@, pos as int)),
    {
        let (name, end) = take_name(buf, pos)?;
        proof {
            let labels = labels_at(buf@, pos as int)->Done_0;
            lemma_parsed_labels_fit(buf@, pos as int, MAX_POINTER_HOPS as nat, 0);
            assert(name@.subrange(0, name@.len() as int) =~= name@);
            lemma_parse_written(name@, 0, labels, 0, 0);
        }
        let qname = into_string(name)?;
        let n = buf.len();
        let qtype = QType::try_from_code(read_u16(buf, end)?)?;
        let qclass = QClass::try_from_code(read_u16(buf, end + 2)?)?;
        Ok((Question { qname, qtype, qclass }, end + 4))
    }

    /// Whether the name of the question can be written: its text splits into
    /// labels of 1 to 63 bytes that fit in the length limit of a name.
    pub fn is_encodable(&self) -> (r: bool)
        ensures
            r == question_fits(self@),
    {
        let labels = text_to_labels(self.qname.as_str().as_bytes());
        labels_fit_check(&labels)
    }

    /// The bytes of the question: its name without compression, then the type
    /// and the class.
    pub fn into_bytes(self) -> (r: Vec<u8>)
        requires
            question_fits(self@),
        ensures
            r@ == question_bytes(self@),
    {
        let mut out: Vec<u8> = Vec::new();
        self.write_to(&mut out);
        out
    }

    /// Appends the bytes of the question to `out`.
    pub fn write_to(&self, out: &mut Vec<u8>)
        requires
            question_fits(self@),
        ensures
            final(out)@ == old(out)@ + question_bytes(self@),
    {
        let labels = text_to_labels(self.qname.as_str().as_bytes());
        let mut name = wire_of(&labels);
        push_u16(&mut name, self.qtype.code());
        push_u16(&mut name, self.qclass.code());
        out.append(&mut name);
    }
}

/// Decoding the bytes of a question whose name can be written gives the
/// question back, wherever the bytes stand in a message.
pub proof fn lemma_question_round_trip(buf: Seq<u8>, pos: int, q: QuestionView)
    requires
        question_fits(q),
        0 <= pos,
        pos + question_bytes(q).len() <= buf.len(),
        buf.subrange(pos, pos + question_bytes(q).len()) == question_bytes(q),
    ensures
        question_at(buf, pos) == Parse::Done(q, pos + question_bytes(q).len()),
{
    let t = encode_utf8(q.qname);
    let labels = text_labels(t);
    let w = name_wire(labels);
    let qb = question_bytes(q);
    let e = pos + w.len();
    assert(buf.subrange(pos, e) =~= w) by {
        assert forall|i: int| 0 <= i < w.len() implies #[trigger] buf.subrange(pos, e)[i]
            == w[i] by {
            assert(buf.subrange(pos, e)[i] == buf.subrange(pos, pos + qb.len())[i]);
        }
    }
    lemma_parse_written(buf, pos, labels, MAX_POINTER_HOPS as nat, 0);
    lemma_text_labels_dotted(t);
    encode_utf8_valid_utf8(q.qname);
    encode_utf8_decode_utf8(q.qname);
    let tc = u16_bytes(qtype_code(q.qtype));
    let cc = u16_bytes(qclass_code(q.qclass));
    assert(buf.subrange(e, e + 2) =~= tc) by {
        assert forall|i: int| 0 <= i < 2 implies #[trigger] buf.subrange(e, e + 2)[i] == tc[i] by {
            assert(buf.subrange(e, e + 2)[i] == buf.subrange(pos, pos + qb.len())[w.len() + i]);
        }
    }
    assert(buf.subrange(e + 2, e + 4) =~= cc) by {
        assert forall|i: int| 0 <= i < 2 implies #[trigger] buf.subrange(e + 2, e + 4)[i]
            == cc[i] by {
            assert(buf.subrange(e + 2, e + 4)[i] == buf.subrange(pos, pos + qb.len())[w.len() + 2
                + i]);
        }
    }
    lemma_u16_round_trip(buf, e, qtype_code(q.qtype));
    lemma_u16_round_trip(buf, e + 2, qclass_code(q.qclass));
    assert(qtype_code(q.qtype) == u16_at(buf, e));
    assert(qclass_code(q.qclass) == u16_at(buf, e + 2));
}

/// For every question whose name can be written, decoding its bytes gives it
/// back.
pub proof fn lemma_question_decode_encode(q: QuestionView)
    requires
        question_fits(q),
    ensures
        question_at(question_bytes(q), 0) == Parse::Done(q, question_bytes(q).len() as int),
{
    assert(question_bytes(q).subrange(0, question_bytes(q).len() as int) =~= question_bytes(q));
    lemma_question_round_trip(question_bytes(q), 0, q);
}

/// Cutting the message short never turns a question that decodes into
/// another question or into an illegal one; it is found short when the cut
/// falls before the end of the question.
pub proof fn lemma_question_truncated(buf: Seq<u8>, pos: int, k: int)
    requires
        0 <= k <= buf.len(),
        question_at(buf, pos) is Done,
    ensures
        question_at(buf.take(k), pos) == question_at(buf, pos) || question_at(buf.take(k), pos) is Short,
        k < question_at(buf, pos)->Done_1 ==> question_at(buf.take(k), pos) is Short,
{
    let cut = buf.take(k);
    lemma_labels_truncated(buf, pos, MAX_POINTER_HOPS as nat, 0, k);
    lemma_parsed_labels_fit(buf, pos, MAX_POINTER_HOPS as nat, 0);
    if labels_at(cut, pos) is Done {
        let e = labels_at(buf, pos)->Done_1;
        if e + 2 <= k {
            assert(cut[e] == buf[e]);
            assert(cut[e + 1] == buf[e + 1]);
        }
        if e + 4 <= k {
            assert(cut[e + 2] == buf[e + 2]);
            assert(cut[e + 3] == buf[e + 3]);
        }
    }
}

impl QType {
    /// The query type that a field holds; a value outside the defined ones is
    /// illegal.
    pub fn try_from_code(value: u16) -> (r: Result<QType, DecodeError>)
        ensures
            match qtype_of(value) {
                Some(t) => r == Ok::<QType, DecodeError>(t),
                None => r is Err && r->Err_0 is IllegalValue,
            },
    {
        let r = match value {
            1 => QType::A,
            2 => QType::NS,
            3 => QType::MD,
            4 => QType::MF,
            5 => QType::CNAME,
            6 => QType::SOA,
            7 => QType::MB,
            8 => QType::MG,
            9 => QType::MR,
            10 => QType::Null,
            11 => QType::WKS,
            12 => QType::PTR,
            13 => QType::HINFO,
            14 => QType::MINFO,
            15 => QType::MX,
            16 => QType::TXT,
            252 => QType::AXFR,
            253 => QType::MAILB,
            254 => QType::MAILA,
            _ => {
                return Err(
                    DecodeError::IllegalValue(
                        "failed to parse value as QType: not a valid value".to_owned(),
                    ),
                );
            },
        };
        assert(qtype_code(r) == value);
        Ok(r)
    }

    /// The value of the query type on the wire.
    pub fn code(self) -> (r: u16)
        ensures
            r == qtype_code(self),
    {
        match self {
            QType::A => 1,
            QType::NS => 2,
            QType::MD => 3,
            QType::MF => 4,
            QType::CNAME => 5,
            QType::SOA => 6,
            QType::MB => 7,
            QType::MG => 8,
            QType::MR => 9,
            QType::Null => 10,
            QType::WKS => 11,
            QType::PTR => 12,
            QType::HINFO => 13,
            QType::MINFO => 14,
            QType::MX => 15,
            QType::TXT => 16,
            QType::AXFR => 252,
            QType::MAILB => 253,
            QType::MAILA => 254,
        }
    }
}

impl QClass {
    /// The query class that a field holds; a value outside the defined ones is
    /// illegal.
    pub fn try_from_code(value: u16) -> (r: Result<QClass, DecodeError>)
        ensures
            match qclass_of(value) {
                Some(c) => r == Ok::<QClass, DecodeError>(c),
                None => r is Err && r->Err_0 is IllegalValue,
            },
    {
        let r = match value {
            1 => QClass::IN,
            2 => QClass::CS,
            3 => QClass::CH,
            4 => QClass::HS,
            255 => QClass::Any,
            _ => {
                return Err(
                    DecodeError::IllegalValue(
                        "failed to parse value as QClass: not a valid value".to_owned(),
                    ),
                );
            },
        };
        assert(qclass_code(r) == value);
        Ok(r)
    }

    /// The value of the query class on the wire.
    pub fn code(self) -> (r: u16)
        ensures
            r == qclass_code(self),
    {
        match self {
            QClass::IN => 1,
            QClass::CS => 2,
            QClass::CH => 3,
            QClass::HS => 4,
            QClass::Any => 255,
        }
    }
}

} // verus!
