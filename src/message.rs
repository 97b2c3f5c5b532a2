//! A whole message: the header, then the questions, the answers, the
//! authority records and the additional records, as many of each as the
//! header declares.
use vstd::prelude::*;

use crate::domain_name::is_text_name;
use crate::header::{header_at, header_bytes, lemma_header_round_trip, lemma_header_truncated, Header};
use crate::resource_record::{
    lemma_record_round_trip, lemma_record_truncated, record_at, record_bytes, record_fits,
    RecordView, ResourceRecord,
};
use crate::sections::{
    lemma_question_round_trip, lemma_question_truncated, question_at, question_bytes,
    question_fits, Question, QuestionView,
};
use crate::{DecodeError, Parse};

verus! {

/// A DNS message.
#[derive(Clone, Debug, Eq, Ord, PartialEq, PartialOrd)]
pub struct Message {
    /// The header, which declares how many entries each section holds.
    pub header: Header,
    /// The question section.
    pub questions: Vec<Question>,
    /// The answer section.
    pub answers: Vec<ResourceRecord>,
    /// The authority section.
    pub authority: Vec<ResourceRecord>,
    /// The additional section.
    pub additional: Vec<ResourceRecord>,
}

/// What a message holds.
pub ghost struct MessageView {
    pub header: Header,
    pub questions: Seq<QuestionView>,
    pub answers: Seq<RecordView>,
    pub authority: Seq<RecordView>,
    pub additional: Seq<RecordView>,
}

/// The views of questions held in a vector.
pub open spec fn question_views(v: Seq<Question>) -> Seq<QuestionView> {
    v.map_values(|q: Question| q@)
}

/// The views of records held in a vector.
pub open spec fn record_views(v: Seq<ResourceRecord>) -> Seq<RecordView> {
    v.map_values(|r: ResourceRecord| r@)
}

impl View for Message {
    type V = MessageView;

    open spec fn view(&self) -> MessageView {
        MessageView {
            header: self.header,
            questions: question_views(self.questions@),
            answers: record_views(self.answers@),
            authority: record_views(self.authority@),
            additional: record_views(self.additional@),
        }
    }
}

/// Decoding of `count` questions one after the other from `pos`, after those
/// in `acc`.
pub open spec fn questions_from(buf: Seq<u8>, pos: int, count: nat, acc: Seq<QuestionView>) -> Parse<
    Seq<QuestionView>,
>
    decreases count,
{
    if count == 0 {
        Parse::Done(acc, pos)
    } else {
        match question_at(buf, pos) {
            Parse::Done(q, e) => questions_from(buf, e, (count - 1) as nat, acc.push(q)),
            Parse::Short => Parse::Short,
            Parse::Illegal => Parse::Illegal,
        }
    }
}

/// Decoding of `count` resource records one after the other from `pos`,
/// after those in `acc`.
pub open spec fn records_from(buf: Seq<u8>, pos: int, count: nat, acc: Seq<RecordView>) -> Parse<
    Seq<RecordView>,
>
    decreases count,
{
    if count == 0 {
        Parse::Done(acc, pos)
    } else {
        match record_at(buf, pos) {
            Parse::Done(r, e) => records_from(buf, e, (count - 1) as nat, acc.push(r)),
            Parse::Short => Parse::Short,
            Parse::Illegal => Parse::Illegal,
        }
    }
}

/// Decoding of the message that fills a buffer from its start: the header,
/// then as many questions and records of each section as it declares, in
/// that order. Bytes after the last record are not read.
pub open spec fn message_at(buf: Seq<u8>) -> Parse<MessageView> {
    match header_at(buf, 0) {
        Parse::Done(h, e0) => match questions_from(buf, e0, h.qd_count as nat, seq![]) {
            Parse::Done(qs, e1) => match records_from(buf, e1, h.an_count as nat, seq![]) {
                Parse::Done(an, e2) => match records_from(buf, e2, h.ns_count as nat, seq![]) {
                    Parse::Done(ns, e3) => match records_from(
                        buf,
                        e3,
                        h.ar_count as nat,
                        seq![],
                    ) {
                        Parse::Done(ar, e4) => Parse::Done(
                            MessageView {
                                header: h,
                                questions: qs,
                                answers: an,
                                authority: ns,
                                additional: ar,
                            },
                            e4,
                        ),
                        Parse::Short => Parse::Short,
                        Parse::Illegal => Parse::Illegal,
                    },
                    Parse::Short => Parse::Short,
                    Parse::Illegal => Parse::Illegal,
                },
                Parse::Short => Parse::Short,
                Parse::Illegal => Parse::Illegal,
            },
            Parse::Short => Parse::Short,
            Parse::Illegal => Parse::Illegal,
        },
        Parse::Short => Parse::Short,
        Parse::Illegal => Parse::Illegal,
    }
}

/// The bytes of questions one after the other.
pub open spec fn questions_bytes(qs: Seq<QuestionView>) -> Seq<u8>
    decreases qs.len(),
{
    if qs.len() == 0 {
        seq![]
    } else {
        question_bytes(qs[0]) + questions_bytes(qs.drop_first())
    }
}

/// The bytes of resource records one after the other.
pub open spec fn records_bytes(rs: Seq<RecordView>) -> Seq<u8>
    decreases rs.len(),
{
    if rs.len() == 0 {
        seq![]
    } else {
        record_bytes(rs[0]) + records_bytes(rs.drop_first())
    }
}

/// The bytes of a message.
pub open spec fn message_bytes(m: MessageView) -> Seq<u8> {
    header_bytes(m.header) + questions_bytes(m.questions) + records_bytes(m.answers)
        + records_bytes(m.authority) + records_bytes(m.additional)
}

/// A message can be written: the reserved field of the header fits in its
/// three bits, the counts of the header match the sections, every question
/// name can be written and every record's length field agrees with its data.
pub open spec fn message_fits(m: MessageView) -> bool {
    &&& m.header.z < 8
    &&& m.header.qd_count == m.questions.len()
    &&& m.header.an_count == m.answers.len()
    &&& m.header.ns_count == m.authority.len()
    &&& m.header.ar_count == m.additional.len()
    &&& forall|i: int| 0 <= i < m.questions.len() ==> question_fits(#[trigger] m.questions[i])
    &&& forall|i: int| 0 <= i < m.answers.len() ==> record_fits(#[trigger] m.answers[i])
    &&& forall|i: int| 0 <= i < m.authority.len() ==> record_fits(#[trigger] m.authority[i])
    &&& forall|i: int| 0 <= i < m.additional.len() ==> record_fits(#[trigger] m.additional[i])
}

proof fn lemma_questions_bytes_push(qs: Seq<QuestionView>, q: QuestionView)
    ensures
        questions_bytes(qs.push(q)) == questions_bytes(qs) + question_bytes(q),
    decreases qs.len(),
{
    if qs.len() == 0 {
        assert(qs.push(q).drop_first() =~= Seq::<QuestionView>::empty());
        assert(qs.push(q)[0] == q);
        assert(questions_bytes(Seq::<QuestionView>::empty()) == Seq::<u8>::empty());
        assert(questions_bytes(qs.push(q)) =~= questions_bytes(qs) + question_bytes(q));
    } else {
        assert(qs.push(q).drop_first() =~= qs.drop_first().push(q));
        lemma_questions_bytes_push(qs.drop_first(), q);
        assert(questions_bytes(qs.push(q)) =~= questions_bytes(qs) + question_bytes(q));
    }
}

proof fn lemma_records_bytes_push(rs: Seq<RecordView>, r: RecordView)
    ensures
        records_bytes(rs.push(r)) == records_bytes(rs) + record_bytes(r),
    decreases rs.len(),
{
    if rs.len() == 0 {
        assert(rs.push(r).drop_first() =~= Seq::<RecordView>::empty());
        assert(rs.push(r)[0] == r);
        assert(records_bytes(Seq::<RecordView>::empty()) == Seq::<u8>::empty());
        assert(records_bytes(rs.push(r)) =~= records_bytes(rs) + record_bytes(r));
    } else {
        assert(rs.push(r).drop_first() =~= rs.drop_first().push(r));
        lemma_records_bytes_push(rs.drop_first(), r);
        assert(records_bytes(rs.push(r)) =~= records_bytes(rs) + record_bytes(r));
    }
}

/// Every record name of the message is written without pointers, as valid
/// UTF-8 text.
pub open spec fn names_plain(m: MessageView) -> bool {
    &&& forall|i: int| 0 <= i < m.answers.len() ==> is_text_name(#[trigger] m.answers[i].name)
    &&& forall|i: int| 0 <= i < m.authority.len() ==> is_text_name(#[trigger] m.authority[i].name)
    &&& forall|i: int| 0 <= i < m.additional.len() ==> is_text_name(
        #[trigger] m.additional[i].name,
    )
}

/// The bytes `part` stand in `buf` from `pos` on.
pub open spec fn holds_at(buf: Seq<u8>, pos: int, part: Seq<u8>) -> bool {
    0 <= pos && pos + part.len() <= buf.len() && buf.subrange(pos, pos + part.len()) == part
}

proof fn lemma_holds_split(buf: Seq<u8>, pos: int, a: Seq<u8>, b: Seq<u8>)
    requires
        holds_at(buf, pos, a + b),
    ensures
        holds_at(buf, pos, a),
        holds_at(buf, pos + a.len(), b),
{
    let ab = a + b;
    assert(buf.subrange(pos, pos + a.len()) =~= a) by {
        assert forall|i: int| 0 <= i < a.len() implies #[trigger] buf.subrange(
            pos,
            pos + a.len(),
        )[i] == a[i] by {
            assert(buf.subrange(pos, pos + a.len())[i] == buf.subrange(pos, pos + ab.len())[i]);
        }
    }
    assert(buf.subrange(pos + a.len(), pos + a.len() + b.len()) =~= b) by {
        assert forall|i: int| 0 <= i < b.len() implies #[trigger] buf.subrange(
            pos + a.len(),
            pos + a.len() + b.len(),
        )[i] == b[i] by {
            assert(buf.subrange(pos + a.len(), pos + a.len() + b.len())[i] == buf.subrange(
                pos,
                pos + ab.len(),
            )[a.len() + i]);
        }
    }
}

proof fn lemma_questions_round_trip(
    buf: Seq<u8>,
    pos: int,
    qs: Seq<QuestionView>,
    acc: Seq<QuestionView>,
)
    requires
        forall|i: int| 0 <= i < qs.len() ==> question_fits(#[trigger] qs[i]),
        holds_at(buf, pos, questions_bytes(qs)),
    ensures
        questions_from(buf, pos, qs.len(), acc) == Parse::Done(
            acc + qs,
            pos + questions_bytes(qs).len(),
        ),
    decreases qs.len(),
{
    if qs.len() == 0 {
        assert(acc + qs =~= acc);
    } else {
        let q = qs[0];
        let rest = qs.drop_first();
        lemma_holds_split(buf, pos, question_bytes(q), questions_bytes(rest));
        lemma_question_round_trip(buf, pos, q);
        assert forall|i: int| 0 <= i < rest.len() implies question_fits(#[trigger] rest[i]) by {
            assert(rest[i] == qs[i + 1]);
        }
        lemma_questions_round_trip(buf, pos + question_bytes(q).len(), rest, acc.push(q));
        assert(acc.push(q) + rest =~= acc + qs);
    }
}

proof fn lemma_records_round_trip(buf: Seq<u8>, pos: int, rs: Seq<RecordView>, acc: Seq<RecordView>)
    requires
        forall|i: int| 0 <= i < rs.len() ==> record_fits(#[trigger] rs[i]),
        forall|i: int| 0 <= i < rs.len() ==> is_text_name(#[trigger] rs[i].name),
        holds_at(buf, pos, records_bytes(rs)),
    ensures
        records_from(buf, pos, rs.len(), acc) == Parse::Done(acc + rs, pos + records_bytes(rs).len()),
    decreases rs.len(),
{
    if rs.len() == 0 {
        assert(acc + rs =~= acc);
    } else {
        let r = rs[0];
        let rest = rs.drop_first();
        lemma_holds_split(buf, pos, record_bytes(r), records_bytes(rest));
        lemma_record_round_trip(buf, pos, r);
        assert forall|i: int| 0 <= i < rest.len() implies record_fits(#[trigger] rest[i])
            && is_text_name(rest[i].name) by {
            assert(rest[i] == rs[i + 1]);
        }
        lemma_records_round_trip(buf, pos + record_bytes(r).len(), rest, acc.push(r));
        assert(acc.push(r) + rest =~= acc + rs);
    }
}

proof fn lemma_message_parts(buf: Seq<u8>, m: MessageView)
    requires
        message_fits(m),
        names_plain(m),
        holds_at(buf, 0, header_bytes(m.header)),
        holds_at(buf, header_bytes(m.header).len() as int, questions_bytes(m.questions)),
        holds_at(
            buf,
            (header_bytes(m.header).len() + questions_bytes(m.questions).len()) as int,
            records_bytes(m.answers),
        ),
        holds_at(
            buf,
            (header_bytes(m.header).len() + questions_bytes(m.questions).len() + records_bytes(
                m.answers,
            ).len()) as int,
            records_bytes(m.authority),
        ),
        holds_at(
            buf,
            (header_bytes(m.header).len() + questions_bytes(m.questions).len() + records_bytes(
                m.answers,
            ).len() + records_bytes(m.authority).len()) as int,
            records_bytes(m.additional),
        ),
    ensures
        message_at(buf) == Parse::Done(
            m,
            (header_bytes(m.header).len() + questions_bytes(m.questions).len() + records_bytes(
                m.answers,
            ).len() + records_bytes(m.authority).len() + records_bytes(m.additional).len()) as int,
        ),
{
    let e0 = header_bytes(m.header).len() as int;
    let e1 = e0 + questions_bytes(m.questions).len();
    let e2 = e1 + records_bytes(m.answers).len();
    let e3 = e2 + records_bytes(m.authority).len();
    assert(header_bytes(m.header).len() == 12);
    lemma_header_round_trip(buf, 0, m.header);
    lemma_questions_round_trip(buf, e0, m.questions, seq![]);
    assert(Seq::<QuestionView>::empty() + m.questions =~= m.questions);
    lemma_records_round_trip(buf, e1, m.answers, seq![]);
    assert(Seq::<RecordView>::empty() + m.answers =~= m.answers);
    lemma_records_round_trip(buf, e2, m.authority, seq![]);
    assert(Seq::<RecordView>::empty() + m.authority =~= m.authority);
    lemma_records_round_trip(buf, e3, m.additional, seq![]);
    assert(Seq::<RecordView>::empty() + m.additional =~= m.additional);
}

/// For every message that can be written and whose record names hold no
/// pointer and are valid UTF-8 text, decoding its bytes gives it back.
pub proof fn lemma_message_decode_encode(m: MessageView)
    requires
        message_fits(m),
        names_plain(m),
    ensures
        message_at(message_bytes(m)) == Parse::Done(m, message_bytes(m).len() as int),
{
    let buf = message_bytes(m);
    let hb = header_bytes(m.header);
    let qb = questions_bytes(m.questions);
    let ab = records_bytes(m.answers);
    let nb = records_bytes(m.authority);
    let db = records_bytes(m.additional);
    assert(holds_at(buf, 0, buf)) by {
        assert(buf.subrange(0, buf.len() as int) =~= buf);
    }
    lemma_holds_split(buf, 0, hb + qb + ab + nb, db);
    lemma_holds_split(buf, 0, hb + qb + ab, nb);
    lemma_holds_split(buf, 0, hb + qb, ab);
    lemma_holds_split(buf, 0, hb, qb);
    lemma_message_parts(buf, m);
}

proof fn lemma_questions_truncated(
    buf: Seq<u8>,
    pos: int,
    count: nat,
    acc: Seq<QuestionView>,
    k: int,
)
    requires
        0 <= k <= buf.len(),
        questions_from(buf, pos, count, acc) is Done,
    ensures
        questions_from(buf.take(k), pos, count, acc) == questions_from(buf, pos, count, acc)
            || questions_from(buf.take(k), pos, count, acc) is Short,
        pos <= k < questions_from(buf, pos, count, acc)->Done_1 ==> questions_from(
            buf.take(k),
            pos,
            count,
            acc,
        ) is Short,
    decreases count,
{
    if count > 0 {
        lemma_question_truncated(buf, pos, k);
        if question_at(buf.take(k), pos) is Done {
            let (q, e) = (question_at(buf, pos)->Done_0, question_at(buf, pos)->Done_1);
            lemma_questions_truncated(buf, e, (count - 1) as nat, acc.push(q), k);
        }
    }
}

proof fn lemma_records_truncated(
    buf: Seq<u8>,
    pos: int,
    count: nat,
    acc: Seq<RecordView>,
    k: int,
)
    requires
        0 <= k <= buf.len(),
        records_from(buf, pos, count, acc) is Done,
    ensures
        records_from(buf.take(k), pos, count, acc) == records_from(buf, pos, count, acc)
            || records_from(buf.take(k), pos, count, acc) is Short,
        pos <= k < records_from(buf, pos, count, acc)->Done_1 ==> records_from(
            buf.take(k),
            pos,
            count,
            acc,
        ) is Short,
    decreases count,
{
    if count > 0 {
        lemma_record_truncated(buf, pos, k);
        if record_at(buf.take(k), pos) is Done {
            let (r, e) = (record_at(buf, pos)->Done_0, record_at(buf, pos)->Done_1);
            lemma_records_truncated(buf, e, (count - 1) as nat, acc.push(r), k);
        }
    }
}

/// A message cut short before its last byte is found short: never illegal,
/// never decoded with a field filled in by something else.
pub proof fn lemma_message_truncated(buf: Seq<u8>, k: int)
    requires
        0 <= k <= buf.len(),
        message_at(buf) is Done,
        k < message_at(buf)->Done_1,
    ensures
        message_at(buf.take(k)) is Short,
{
    let cut = buf.take(k);
    lemma_header_truncated(buf, 0, k);
    if header_at(cut, 0) is Done {
        let (h, e0) = (header_at(buf, 0)->Done_0, header_at(buf, 0)->Done_1);
        lemma_questions_truncated(buf, e0, h.qd_count as nat, seq![], k);
        if questions_from(cut, e0, h.qd_count as nat, seq![]) is Done {
            let e1 = questions_from(buf, e0, h.qd_count as nat, seq![])->Done_1;
            lemma_records_truncated(buf, e1, h.an_count as nat, seq![], k);
            if records_from(cut, e1, h.an_count as nat, seq![]) is Done {
                let e2 = records_from(buf, e1, h.an_count as nat, seq![])->Done_1;
                lemma_records_truncated(buf, e2, h.ns_count as nat, seq![], k);
                if records_from(cut, e2, h.ns_count as nat, seq![]) is Done {
                    let e3 = records_from(buf, e2, h.ns_count as nat, seq![])->Done_1;
                    lemma_records_truncated(buf, e3, h.ar_count as nat, seq![], k);
                }
            }
        }
    }
}

/// Decodes `count` questions one after the other from `pos`.
fn decode_questions(buf: &[u8], pos: usize, count: u16) -> (r: Result<
    (Vec<Question>, usize),
    DecodeError,
>)
    ensures
        match questions_from(buf@, pos as int, count as nat, seq![]) {
            Parse::Done(qs, end) => r is Ok && question_views(r->Ok_0.0@) == qs && r->Ok_0.1
                == end,
            Parse::Short => r is Err && r->Err_0 is NotEnoughBytes,
            Parse::Illegal => r is Err && r->Err_0 is IllegalValue,
        },
{
    let mut questions: Vec<Question> = Vec::new();
    let mut at = pos;
    let mut i: u16 = 0;
    assert(question_views(questions@) =~= Seq::<QuestionView>::empty());
    while i < count
        invariant
            i <= count,
            questions_from(buf@, pos as int, count as nat, seq![]) == questions_from(
                buf@,
                at as int,
                (count - i) as nat,
                question_views(questions@),
            ),
        decreases count - i,
    {
        let (q, next) = Question::decode(buf, at)?;
        let ghost before = question_views(questions@);
        questions.push(q);
        assert(question_views(questions@) =~= before.push(q@));
        at = next;
        i = i + 1;
    }
    Ok((questions, at))
}

/// Decodes `count` resource records one after the other from `pos`.
fn decode_records(buf: &[u8], pos: usize, count: u16) -> (r: Result<
    (Vec<ResourceRecord>, usize),
    DecodeError,
>)
    ensures
        match records_from(buf@, pos as int, count as nat, seq![]) {
            Parse::Done(rs, end) => r is Ok && record_views(r->Ok_0.0@) == rs && r->Ok_0.1 == end,
            Parse::Short => r is Err && r->Err_0 is NotEnoughBytes,
            Parse::Illegal => r is Err && r->Err_0 is IllegalValue,
        },
{
    let mut records: Vec<ResourceRecord> = Vec::new();
    let mut at = pos;
    let mut i: u16 = 0;
    assert(record_views(records@) =~= Seq::<RecordView>::empty());
    while i < count
        invariant
            i <= count,
            records_from(buf@, pos as int, count as nat, seq![]) == records_from(
                buf@,
                at as int,
                (count - i) as nat,
                record_views(records@),
            ),
        decreases count - i,
    {
        let (rec, next) = ResourceRecord::decode(buf, at)?;
        let ghost before = record_views(records@);
        records.push(rec);
        assert(record_views(records@) =~= before.push(rec@));
        at = next;
        i = i + 1;
    }
    Ok((records, at))
}

/// Appends the bytes of the records one after the other.
fn write_records(records: &Vec<ResourceRecord>, out: &mut Vec<u8>)
    requires
        forall|i: int| 0 <= i < records@.len() ==> record_fits(#[trigger] records@[i]@),
    ensures
        final(out)@ == old(out)@ + records_bytes(record_views(records@)),
{
    let ghost views = record_views(records@);
    let mut i: usize = 0;
    while i < records.len()
        invariant
            i <= records@.len(),
            views == record_views(records@),
            forall|j: int| 0 <= j < records@.len() ==> record_fits(#[trigger] records@[j]@),
            out@ == old(out)@ + records_bytes(views.take(i as int)),
        decreases records@.len() - i,
    {
        records[i].write_to(out);
        proof {
            lemma_records_bytes_push(views.take(i as int), views[i as int]);
            assert(views.take(i + 1) =~= views.take(i as int).push(views[i as int]));
        }
        i = i + 1;
    }
    assert(views.take(i as int) =~= views);
}

impl Message {
    /// Decodes the message that fills `buf` from its start. Pointers in names
    /// may refer to any earlier or later part of the buffer.
    pub fn decode(buf: &[u8]) -> (r: Result<Message, DecodeError>)
        ensures
            match message_at(buf@) {
                Parse::Done(m, _) => r is Ok && r->Ok_0@ == m,
                Parse::Short => r is Err && r->Err_0 is NotEnoughBytes,
                Parse::Illegal => r is Err && r->Err_0 is IllegalValue,
            },
    {
        let (header, at) = Header::decode(buf, 0)?;
        let (questions, at) = decode_questions(buf, at, header.qd_count)?;
        let (answers, at) = decode_records(buf, at, header.an_count)?;
        let (authority, at) = decode_records(buf, at, header.ns_count)?;
        let (additional, _) = decode_records(buf, at, header.ar_count)?;
        Ok(Message { header, questions, answers, authority, additional })
    }

    /// Whether the message can be written: see `message_fits`.
    pub fn is_encodable(&self) -> (r: bool)
        ensures
            r == message_fits(self@),
    {
        if self.header.z >= 8 || self.header.qd_count as usize != self.questions.len() || self.header.an_count
            as usize != self.answers.len() || self.header.ns_count as usize != self.authority.len()
            || self.header.ar_count as usize != self.additional.len() {
            return false;
        }
        let mut i: usize = 0;
        while i < self.questions.len()
            invariant
                i <= self.questions@.len(),
                forall|j: int| 0 <= j < i ==> question_fits(#[trigger] self.questions@[j]@),
            decreases self.questions@.len() - i,
        {
            if !self.questions[i].is_encodable() {
                assert(question_views(self.questions@)[i as int] == self.questions@[i as int]@);
                assert(!question_fits(self@.questions[i as int]));
                return false;
            }
            i = i + 1;
        }
        assert(forall|j: int|
            0 <= j < self.questions@.len() ==> #[trigger] question_views(self.questions@)[j]
                == self.questions@[j]@);
        let a = records_encodable(&self.answers);
        let b = records_encodable(&self.authority);
        let c = records_encodable(&self.additional);
        a && b && c
    }

    /// The bytes of the message: the header, then each section in order, names
    /// written as they are held.
    pub fn into_bytes(self) -> (r: Vec<u8>)
        requires
            message_fits(self@),
        ensures
            r@ == message_bytes(self@),
    {
        let mut out = self.header.into_bytes();
        let ghost views = question_views(self.questions@);
        let mut i: usize = 0;
        while i < self.questions.len()
            invariant
                i <= self.questions@.len(),
                views == question_views(self.questions@),
                forall|j: int| 0 <= j < views.len() ==> question_fits(#[trigger] views[j]),
                out@ == header_bytes(self.header) + questions_bytes(views.take(i as int)),
            decreases self.questions@.len() - i,
        {
            assert(views[i as int] == self.questions@[i as int]@);
            self.questions[i].write_to(&mut out);
            proof {
                lemma_questions_bytes_push(views.take(i as int), views[i as int]);
                assert(views.take(i + 1) =~= views.take(i as int).push(views[i as int]));
            }
            i = i + 1;
        }
        assert(views.take(i as int) =~= views);
        proof {
            assert forall|j: int| 0 <= j < self.answers@.len() implies record_fits(
                #[trigger] self.answers@[j]@,
            ) by {
                assert(record_views(self.answers@)[j] == self.answers@[j]@);
            }
            assert forall|j: int| 0 <= j < self.authority@.len() implies record_fits(
                #[trigger] self.authority@[j]@,
            ) by {
                assert(record_views(self.authority@)[j] == self.authority@[j]@);
            }
            assert forall|j: int| 0 <= j < self.additional@.len() implies record_fits(
                #[trigger] self.additional@[j]@,
            ) by {
                assert(record_views(self.additional@)[j] == self.additional@[j]@);
            }
        }
        write_records(&self.answers, &mut out);
        write_records(&self.authority, &mut out);
        write_records(&self.additional, &mut out);
        out
    }
}

/// Whether every record's length field agrees with its data.
fn records_encodable(records: &Vec<ResourceRecord>) -> (r: bool)
    ensures
        r == forall|i: int|
            0 <= i < record_views(records@).len() ==> record_fits(
                #[trigger] record_views(records@)[i],
            ),
{
    let mut i: usize = 0;
    while i < records.len()
        invariant
            i <= records@.len(),
            forall|j: int| 0 <= j < i ==> record_fits(#[trigger] records@[j]@),
        decreases records@.len() - i,
    {
        if !records[i].is_encodable() {
            assert(record_views(records@)[i as int] == records@[i as int]@);
            return false;
        }
        i = i + 1;
    }
    assert(forall|j: int|
        0 <= j < records@.len() ==> #[trigger] record_views(records@)[j] == records@[j]@);
    true
}

} // verus!
