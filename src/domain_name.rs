//! Domain names on the wire.
//!
//! A name is written in one of three ways:
//! 1) a sequence of labels ending with a zero byte;
//! 2) a pointer;
//! 3) a sequence of labels ending with a pointer.
//!
//! A label is a length byte whose two top bits are clear, followed by that many
//! bytes. A pointer is two bytes whose first two bits are set; the other 14 bits
//! give the position, from the start of the message, where the rest of the name
//! is written. Decoding follows pointers and gives the name in the first form.
use vstd::prelude::*;
use vstd::utf8::*;

use crate::field::{push_bytes, take_bytes};
use crate::{DecodeError, Parse};

verus! {

broadcast use vstd::seq_lib::group_seq_properties;

/// How many pointers are followed, at most, while one name is decoded. A name
/// of 255 bytes holds at most 127 labels.
pub const MAX_POINTER_HOPS: u8 = 127;

/// The byte that separates labels in the text of a name: `.`.
pub const DOT: u8 = 0x2E;

/// The longest name in wire form, terminating zero byte included.
pub const MAX_NAME_LEN: usize = 255;

/// A domain name in wire form: the labels, each as a length byte and its bytes,
/// then a zero byte.
pub struct Name(pub Vec<u8>);

impl View for Name {
    type V = Seq<u8>;

    open spec fn view(&self) -> Seq<u8> {
        self.0@
    }
}

/// The two top bits are set: the byte starts a pointer.
pub open spec fn pointer_byte(b: u8) -> bool {
    b >= 0xC0
}

/// The two top bits are clear: the byte is the length of a label.
pub open spec fn label_byte(b: u8) -> bool {
    b < 0x40
}

/// The position that the pointer at `pos` refers to.
pub open spec fn pointer_target(buf: Seq<u8>, pos: int) -> int {
    (buf[pos] - 0xC0) * 0x100 + buf[pos + 1]
}

/// The labels written one after the other, each behind its length byte.
pub open spec fn labels_wire(labels: Seq<Seq<u8>>) -> Seq<u8>
    decreases labels.len(),
{
    if labels.len() == 0 {
        seq![]
    } else {
        seq![labels[0].len() as u8] + labels[0] + labels_wire(labels.drop_first())
    }
}

/// A name in wire form, without compression.
pub open spec fn name_wire(labels: Seq<Seq<u8>>) -> Seq<u8> {
    labels_wire(labels).push(0)
}

/// The labels joined by dots.
pub open spec fn dotted(labels: Seq<Seq<u8>>) -> Seq<u8>
    decreases labels.len(),
{
    if labels.len() == 0 {
        seq![]
    } else if labels.len() == 1 {
        labels[0]
    } else {
        labels[0] + seq![DOT] + dotted(labels.drop_first())
    }
}

/// Every label holds 1 to 63 bytes.
pub open spec fn labels_fit(labels: Seq<Seq<u8>>) -> bool {
    forall|i: int| 0 <= i < labels.len() ==> 1 <= #[trigger] labels[i].len() <= 63
}

/// The views of labels held in vectors.
pub open spec fn label_views(v: Seq<Vec<u8>>) -> Seq<Seq<u8>> {
    v.map_values(|l: Vec<u8>| l@)
}

/// Decodes the labels of the name that starts at `pos`. At most `hops` more
/// pointers may be followed, and `used` bytes of the name's length are taken
/// already. Gives the labels and the position just past the name as it is
/// written at `pos` (after its zero byte or its first pointer).
pub open spec fn parse_labels(buf: Seq<u8>, pos: int, hops: nat, used: nat) -> Parse<
    Seq<Seq<u8>>,
>
    decreases hops, buf.len() - pos,
{
    if pos < 0 || pos >= buf.len() {
        Parse::Short
    } else if pointer_byte(buf[pos]) {
        if pos + 1 >= buf.len() {
            Parse::Short
        } else if hops == 0 {
            Parse::Illegal
        } else {
            match parse_labels(buf, pointer_target(buf, pos), (hops - 1) as nat, used) {
                Parse::Done(labels, _) => Parse::Done(labels, pos + 2),
                Parse::Short => Parse::Short,
                Parse::Illegal => Parse::Illegal,
            }
        }
    } else if !label_byte(buf[pos]) {
        Parse::Illegal
    } else if buf[pos] == 0 {
        Parse::Done(seq![], pos + 1)
    } else if used + 1 + buf[pos] + 1 > MAX_NAME_LEN {
        Parse::Illegal
    } else if pos + 1 + buf[pos] > buf.len() {
        Parse::Short
    } else {
        let next = pos + 1 + buf[pos];
        match parse_labels(buf, next, hops, (used + 1 + buf[pos]) as nat) {
            Parse::Done(rest, end) => Parse::Done(seq![buf.subrange(pos + 1, next)] + rest, end),
            Parse::Short => Parse::Short,
            Parse::Illegal => Parse::Illegal,
        }
    }
}

/// The labels of the name that starts at `pos` of a message.
pub open spec fn labels_at(buf: Seq<u8>, pos: int) -> Parse<Seq<Seq<u8>>> {
    parse_labels(buf, pos, MAX_POINTER_HOPS as nat, 0)
}

/// The name that starts at `pos` of a message, in wire form without pointers.
/// Its text must be valid UTF-8.
pub open spec fn name_at(buf: Seq<u8>, pos: int) -> Parse<Seq<u8>> {
    match labels_at(buf, pos) {
        Parse::Done(labels, end) => if valid_utf8(dotted(labels)) {
            Parse::Done(name_wire(labels), end)
        } else {
            Parse::Illegal
        },
        Parse::Short => Parse::Short,
        Parse::Illegal => Parse::Illegal,
    }
}

/// The dotted text of the labels, where their bytes are valid UTF-8.
pub open spec fn text_of_labels(labels: Seq<Seq<u8>>) -> Option<Seq<char>> {
    if valid_utf8(dotted(labels)) {
        Some(decode_utf8(dotted(labels)))
    } else {
        None
    }
}

/// The dotted text of a whole name in wire form that holds no pointer.
pub open spec fn name_text(name: Seq<u8>) -> Option<Seq<char>> {
    match parse_labels(name, 0, 0, 0) {
        Parse::Done(labels, end) => if end == name.len() {
            text_of_labels(labels)
        } else {
            None
        },
        _ => None,
    }
}

/// A whole name in wire form that holds no pointer and whose text is valid
/// UTF-8: what decoding gives.
pub open spec fn is_text_name(name: Seq<u8>) -> bool {
    name_text(name) is Some
}

/// A whole name in wire form that holds no pointer.
pub open spec fn is_plain_name(name: Seq<u8>) -> bool {
    match parse_labels(name, 0, 0, 0) {
        Parse::Done(_, end) => end == name.len(),
        _ => false,
    }
}

/// Adding a label at the end of a sequence adds its length byte and its bytes
/// at the end of the wire form.
pub proof fn lemma_labels_wire_push(labels: Seq<Seq<u8>>, label: Seq<u8>)
    ensures
        labels_wire(labels.push(label)) == labels_wire(labels) + seq![label.len() as u8] + label,
    decreases labels.len(),
{
    if labels.len() == 0 {
        assert(labels.push(label).drop_first() =~= Seq::<Seq<u8>>::empty());
        assert(labels_wire(labels.push(label)) =~= labels_wire(labels) + seq![label.len() as u8]
            + label);
    } else {
        assert(labels.push(label).drop_first() =~= labels.drop_first().push(label));
        lemma_labels_wire_push(labels.drop_first(), label);
        assert(labels_wire(labels.push(label)) =~= labels_wire(labels) + seq![label.len() as u8]
            + label);
    }
}

/// Adding a label at the end of a sequence adds a dot and the label at the end
/// of the text.
pub proof fn lemma_dotted_push(labels: Seq<Seq<u8>>, label: Seq<u8>)
    ensures
        dotted(labels.push(label)) == if labels.len() == 0 {
            label
        } else {
            dotted(labels) + seq![DOT] + label
        },
    decreases labels.len(),
{
    if labels.len() == 0 {
        assert(labels.push(label)[0] == label);
    } else if labels.len() == 1 {
        assert(labels.push(label).drop_first() =~= seq![label]);
        assert(dotted(seq![label]) == label);
        assert(dotted(labels.push(label)) =~= dotted(labels) + seq![DOT] + label);
    } else {
        assert(labels.push(label).drop_first() =~= labels.drop_first().push(label));
        lemma_dotted_push(labels.drop_first(), label);
        assert(dotted(labels.push(label)) =~= dotted(labels) + seq![DOT] + label);
    }
}

/// The labels that a successful decoding gives hold 1 to 63 bytes each, and
/// the name fits in its length limit.
pub proof fn lemma_parsed_labels_fit(buf: Seq<u8>, pos: int, hops: nat, used: nat)
    requires
        used < MAX_NAME_LEN,
    ensures
        parse_labels(buf, pos, hops, used) matches Parse::Done(labels, end) ==> labels_fit(labels)
            && used + labels_wire(labels).len() < MAX_NAME_LEN && 0 <= pos < end <= buf.len(),
    decreases hops, buf.len() - pos,
{
    if 0 <= pos < buf.len() {
        if pointer_byte(buf[pos]) {
            if pos + 1 < buf.len() && hops > 0 {
                lemma_parsed_labels_fit(buf, pointer_target(buf, pos), (hops - 1) as nat, used);
            }
        } else if label_byte(buf[pos]) && buf[pos] != 0 && used + 1 + buf[pos] + 1 <= MAX_NAME_LEN
            && pos + 1 + buf[pos] <= buf.len() {
            let next = pos + 1 + buf[pos];
            lemma_parsed_labels_fit(buf, next, hops, (used + 1 + buf[pos]) as nat);
            if let Parse::Done(rest, _) = parse_labels(
                buf,
                next,
                hops,
                (used + 1 + buf[pos]) as nat,
            ) {
                let labels = seq![buf.subrange(pos + 1, next)] + rest;
                assert(labels.drop_first() =~= rest);
                assert(labels[0].len() == buf[pos]);
                assert(labels_fit(labels)) by {
                    assert forall|i: int| 0 <= i < labels.len() implies 1 <= #[trigger] labels[i].len()
                        <= 63 by {
                        if i > 0 {
                            assert(labels[i] == rest[i - 1]);
                        }
                    }
                }
            }
        }
    }
}

/// A name written without pointers, with labels of 1 to 63 bytes that fit in
/// the length limit, decodes to those labels, wherever it stands in a message.
pub proof fn lemma_parse_written(
    buf: Seq<u8>,
    pos: int,
    labels: Seq<Seq<u8>>,
    hops: nat,
    used: nat,
)
    requires
        0 <= pos,
        pos + name_wire(labels).len() <= buf.len(),
        buf.subrange(pos, pos + name_wire(labels).len()) == name_wire(labels),
        labels_fit(labels),
        used + labels_wire(labels).len() < MAX_NAME_LEN,
    ensures
        parse_labels(buf, pos, hops, used) == Parse::Done(labels, pos + name_wire(labels).len()),
    decreases labels.len(),
{
    let w = name_wire(labels);
    assert(buf[pos] == buf.subrange(pos, pos + w.len())[0]);
    if labels.len() == 0 {
        assert(w =~= seq![0u8]);
    } else {
        let l = labels[0];
        let rest = labels.drop_first();
        let b = l.len();
        let rw = name_wire(rest);
        assert(w =~= seq![b as u8] + l + rw);
        let next = pos + 1 + b;
        assert(buf.subrange(next, next + rw.len()) =~= rw) by {
            assert forall|i: int| 0 <= i < rw.len() implies #[trigger] buf.subrange(
                next,
                next + rw.len(),
            )[i] == rw[i] by {
                assert(buf[next + i] == buf.subrange(pos, pos + w.len())[1 + b + i]);
                assert(w[1 + b + i] == rw[i]);
            }
        }
        assert(buf.subrange(pos + 1, next) =~= l) by {
            assert forall|i: int| 0 <= i < b implies #[trigger] buf.subrange(pos + 1, next)[i]
                == l[i] by {
                assert(buf[pos + 1 + i] == buf.subrange(pos, pos + w.len())[1 + i]);
                assert(w[1 + i] == l[i]);
            }
        }
        assert(labels_fit(rest)) by {
            assert forall|i: int| 0 <= i < rest.len() implies 1 <= #[trigger] rest[i].len()
                <= 63 by {
                assert(rest[i] == labels[i + 1]);
            }
        }
        assert(labels[0].len() >= 1);
        lemma_parse_written(buf, next, rest, hops, (used + 1 + b) as nat);
        assert(seq![buf.subrange(pos + 1, next)] + rest =~= labels);
    }
}

/// Decoding with no pointer allowed reads the name exactly as it is written.
pub proof fn lemma_parse_plain(buf: Seq<u8>, pos: int, used: nat)
    ensures
        parse_labels(buf, pos, 0, used) matches Parse::Done(labels, end) ==> end == pos
            + name_wire(labels).len() && end <= buf.len() && buf.subrange(pos, end) == name_wire(
            labels,
        ),
    decreases buf.len() - pos,
{
    if 0 <= pos < buf.len() && label_byte(buf[pos]) {
        if buf[pos] == 0 {
            assert(buf.subrange(pos, pos + 1) =~= name_wire(seq![]));
        } else if used + 1 + buf[pos] + 1 <= MAX_NAME_LEN && pos + 1 + buf[pos] <= buf.len() {
            let next = pos + 1 + buf[pos];
            lemma_parse_plain(buf, next, (used + 1 + buf[pos]) as nat);
            if let Parse::Done(rest, end) = parse_labels(
                buf,
                next,
                0,
                (used + 1 + buf[pos]) as nat,
            ) {
                let l = buf.subrange(pos + 1, next);
                let labels = seq![l] + rest;
                assert(labels.drop_first() =~= rest);
                assert(name_wire(labels) =~= seq![buf[pos]] + l + name_wire(rest));
                assert(buf.subrange(pos, end) =~= seq![buf[pos]] + l + buf.subrange(next, end));
            }
        }
    }
}

/// A whole name without pointers is the wire form of the labels that it
/// decodes to.
pub proof fn lemma_plain_name(name: Seq<u8>) -> (labels: Seq<Seq<u8>>)
    requires
        is_plain_name(name),
    ensures
        parse_labels(name, 0, 0, 0) == Parse::Done(labels, name.len() as int),
        name == name_wire(labels),
        labels_fit(labels),
        labels_wire(labels).len() < MAX_NAME_LEN,
{
    lemma_parse_plain(name, 0, 0);
    lemma_parsed_labels_fit(name, 0, 0, 0);
    let labels = parse_labels(name, 0, 0, 0)->Done_0;
    assert(name.subrange(0, name.len() as int) =~= name);
    labels
}

/// A pointer chain that comes back to where it started is refused, however
/// many pointers may still be followed.
proof fn lemma_cycle_illegal(buf: Seq<u8>, cycle: Seq<int>, i: int, hops: nat, used: nat)
    requires
        0 <= i < cycle.len(),
        forall|k: int|
            0 <= k < cycle.len() ==> 0 <= #[trigger] cycle[k] && cycle[k] + 1 < buf.len()
                && pointer_byte(buf[cycle[k]]) && pointer_target(buf, cycle[k]) == if k + 1
                < cycle.len() {
                cycle[k + 1]
            } else {
                cycle[0]
            },
    ensures
        parse_labels(buf, cycle[i], hops, used) == Parse::<Seq<Seq<u8>>>::Illegal,
    decreases hops,
{
    if hops > 0 {
        let j = if i + 1 < cycle.len() {
            i + 1
        } else {
            0
        };
        lemma_cycle_illegal(buf, cycle, j, (hops - 1) as nat, used);
    }
}

/// A name that starts on a chain of pointers which comes back to where it
/// started is refused as illegal: decoding stops instead of going round the
/// cycle. `cycle` lists the positions of the pointers in the order in which
/// they refer to each other; the last refers to the first.
pub proof fn lemma_pointer_cycle_refused(buf: Seq<u8>, cycle: Seq<int>, i: int)
    requires
        0 <= i < cycle.len(),
        forall|k: int|
            0 <= k < cycle.len() ==> 0 <= #[trigger] cycle[k] && cycle[k] + 1 < buf.len()
                && pointer_byte(buf[cycle[k]]) && pointer_target(buf, cycle[k]) == if k + 1
                < cycle.len() {
                cycle[k + 1]
            } else {
                cycle[0]
            },
    ensures
        name_at(buf, cycle[i]) == Parse::<Seq<u8>>::Illegal,
{
    lemma_cycle_illegal(buf, cycle, i, MAX_POINTER_HOPS as nat, 0);
}

/// A length byte above 63 that is not the start of a pointer is refused as
/// illegal, at the start of a name and after other labels alike.
pub proof fn lemma_long_label_refused(buf: Seq<u8>, pos: int, hops: nat, used: nat)
    requires
        0 <= pos < buf.len(),
        63 < buf[pos] < 0xC0,
    ensures
        parse_labels(buf, pos, hops, used) == Parse::<Seq<Seq<u8>>>::Illegal,
        name_at(buf, pos) == Parse::<Seq<u8>>::Illegal,
{
}

/// Cutting the message short never turns a name that decodes into another
/// name or into an illegal one: it decodes the same, or it is found short. It
/// is found short when the cut falls before the end of the name.
pub proof fn lemma_labels_truncated(buf: Seq<u8>, pos: int, hops: nat, used: nat, k: int)
    requires
        0 <= k <= buf.len(),
        parse_labels(buf, pos, hops, used) is Done,
    ensures
        parse_labels(buf.take(k), pos, hops, used) == parse_labels(buf, pos, hops, used)
            || parse_labels(buf.take(k), pos, hops, used) is Short,
        k < parse_labels(buf, pos, hops, used)->Done_1 ==> parse_labels(
            buf.take(k),
            pos,
            hops,
            used,
        ) is Short,
    decreases hops, buf.len() - pos,
{
    let cut = buf.take(k);
    if pos >= k {
    } else if pointer_byte(buf[pos]) {
        assert(cut[pos] == buf[pos]);
        if pos + 1 < k {
            assert(cut[pos + 1] == buf[pos + 1]);
            assert(pointer_target(cut, pos) == pointer_target(buf, pos));
            lemma_labels_truncated(buf, pointer_target(buf, pos), (hops - 1) as nat, used, k);
        }
    } else {
        assert(cut[pos] == buf[pos]);
        if buf[pos] != 0 {
            let next = pos + 1 + buf[pos];
            if next <= k {
                assert(cut.subrange(pos + 1, next) =~= buf.subrange(pos + 1, next));
                lemma_labels_truncated(buf, next, hops, (used + 1 + buf[pos]) as nat, k);
            }
        }
    }
}

/// The labels of the text of a name from position `i` on, where `cur` holds
/// the bytes of the label that is still open.
pub open spec fn split_from(t: Seq<u8>, i: int, cur: Seq<u8>) -> Seq<Seq<u8>>
    decreases t.len() - i,
{
    if i >= t.len() {
        seq![cur]
    } else if t[i] == DOT {
        seq![cur] + split_from(t, i + 1, seq![])
    } else {
        split_from(t, i + 1, cur.push(t[i]))
    }
}

/// The labels of the text of a name: the pieces between dots. The empty text
/// is the root, which has no label.
pub open spec fn text_labels(t: Seq<u8>) -> Seq<Seq<u8>> {
    if t.len() == 0 {
        seq![]
    } else {
        split_from(t, 0, seq![])
    }
}

/// The text of a name can be written on the wire: each label holds 1 to 63
/// bytes, and the name fits in its length limit.
pub open spec fn text_fits(t: Seq<u8>) -> bool {
    labels_fit(text_labels(t)) && labels_wire(text_labels(t)).len() < MAX_NAME_LEN
}

proof fn lemma_split_from_dotted(t: Seq<u8>, i: int, cur: Seq<u8>)
    requires
        0 <= i <= t.len(),
    ensures
        split_from(t, i, cur).len() >= 1,
        dotted(split_from(t, i, cur)) == cur + t.subrange(i, t.len() as int),
    decreases t.len() - i,
{
    if i >= t.len() {
        assert(cur + t.subrange(i, t.len() as int) =~= cur);
    } else if t[i] == DOT {
        lemma_split_from_dotted(t, i + 1, seq![]);
        let rest = split_from(t, i + 1, seq![]);
        assert((seq![cur] + rest).drop_first() =~= rest);
        assert(cur + seq![DOT] + (seq![] + t.subrange(i + 1, t.len() as int)) =~= cur
            + t.subrange(i, t.len() as int));
    } else {
        lemma_split_from_dotted(t, i + 1, cur.push(t[i]));
        assert(cur.push(t[i]) + t.subrange(i + 1, t.len() as int) =~= cur + t.subrange(
            i,
            t.len() as int,
        ));
    }
}

/// Joining the labels of a text by dots gives the text back.
pub proof fn lemma_text_labels_dotted(t: Seq<u8>)
    ensures
        dotted(text_labels(t)) == t,
{
    if t.len() > 0 {
        lemma_split_from_dotted(t, 0, seq![]);
        assert(Seq::<u8>::empty() + t.subrange(0, t.len() as int) =~= t);
    }
}

/// The wire form of two sequences of labels, one after the other.
pub proof fn lemma_labels_wire_append(a: Seq<Seq<u8>>, b: Seq<Seq<u8>>)
    ensures
        labels_wire(a + b) == labels_wire(a) + labels_wire(b),
    decreases a.len(),
{
    if a.len() == 0 {
        assert(a + b =~= b);
        assert(labels_wire(a) + labels_wire(b) =~= labels_wire(b));
    } else {
        assert((a + b).drop_first() =~= a.drop_first() + b);
        lemma_labels_wire_append(a.drop_first(), b);
        assert(labels_wire(a + b) =~= labels_wire(a) + labels_wire(b));
    }
}

/// Relies on std::str::from_utf8: it accepts exactly the byte sequences that
/// are valid UTF-8, and the text it gives back is made of those bytes.
#[verifier::external_body]
fn text_from_utf8(bytes: &[u8]) -> (r: Option<String>)
    ensures
        r is Some <==> valid_utf8(bytes@),
        r is Some ==> encode_utf8(r->0@) == bytes@,
{
    match std::str::from_utf8(bytes) {
        Ok(text) => Some(text.to_owned()),
        Err(_) => None,
    }
}

/// The first byte of a pointer has its two top bits set.
pub fn is_pointer(value: u8) -> (r: bool)
    ensures
        r == pointer_byte(value),
{
    proof {
        assert((value & 0b1100_0000 == 0b1100_0000) == (value >= 0xC0)) by (bit_vector);
    }
    value & 0b1100_0000 == 0b1100_0000
}

/// The length byte of a label has its two top bits clear.
pub fn is_label(value: u8) -> (r: bool)
    ensures
        r == label_byte(value),
{
    proof {
        assert((value & 0b1100_0000 == 0) == (value < 0x40)) by (bit_vector);
    }
    value & 0b1100_0000 == 0
}

/// Decodes the labels of the name at `pos`, following at most `hops` pointers,
/// with `used` bytes of the name's length taken already, and appends them to
/// `labels`. Gives the position just past the name as written at `pos`.
pub fn take_labels(buf: &[u8], pos: usize, hops: u8, used: usize, labels: &mut Vec<Vec<u8>>) -> (r:
    Result<usize, DecodeError>)
    requires
        used < MAX_NAME_LEN,
    ensures
        match parse_labels(buf@, pos as int, hops as nat, used as nat) {
            Parse::Done(found, end) => r is Ok && r->Ok_0 == end && label_views(final(labels)@)
                == label_views(old(labels)@) + found,
            Parse::Short => r is Err && r->Err_0 is NotEnoughBytes,
            Parse::Illegal => r is Err && r->Err_0 is IllegalValue,
        },
    decreases hops, buf@.len() - pos,
{
    if pos >= buf.len() {
        return Err(DecodeError::NotEnoughBytes);
    }
    let first = buf[pos];
    if is_pointer(first) {
        if pos + 1 >= buf.len() {
            return Err(DecodeError::NotEnoughBytes);
        }
        if hops == 0 {
            return Err(
                DecodeError::IllegalValue("failed to parse domain name: too many pointers".to_owned()),
            );
        }
        let target: usize = (first - 0xC0) as usize * 0x100 + buf[pos + 1] as usize;
        return match take_labels(buf, target, hops - 1, used, labels) {
            Ok(_) => Ok(pos + 2),
            Err(e) => Err(e),
        };
    }
    if !is_label(first) {
        return Err(
            DecodeError::IllegalValue(
                "failed to parse domain name: it's not a pointer or label".to_owned(),
            ),
        );
    }
    if first == 0 {
        return Ok(pos + 1);
    }
    let len = first as usize;
    if used + 1 + len + 1 > MAX_NAME_LEN {
        return Err(
            DecodeError::IllegalValue("failed to parse domain name: name too long".to_owned()),
        );
    }
    if buf.len() - (pos + 1) < len {
        return Err(DecodeError::NotEnoughBytes);
    }
    let label = take_bytes(buf, pos + 1, len);
    let ghost before = label_views(labels@);
    labels.push(label);
    assert(label_views(labels@) =~= before.push(buf@.subrange(pos + 1, pos + 1 + len)));
    let r = take_labels(buf, pos + 1 + len, hops, used + 1 + len, labels);
    proof {
        if let Parse::Done(rest, end) = parse_labels(
            buf@,
            (pos + 1 + len) as int,
            hops as nat,
            (used + 1 + len) as nat,
        ) {
            assert(label_views(labels@) =~= before + (seq![buf@.subrange(pos + 1, pos + 1 + len)]
                + rest));
        }
    }
    r
}

/// The wire form of labels that hold 1 to 63 bytes each.
pub(crate) fn wire_of(labels: &Vec<Vec<u8>>) -> (r: Vec<u8>)
    requires
        labels_fit(label_views(labels@)),
    ensures
        r@ == name_wire(label_views(labels@)),
{
    let ghost views = label_views(labels@);
    let mut out: Vec<u8> = Vec::new();
    let mut i: usize = 0;
    while i < labels.len()
        invariant
            i <= labels@.len(),
            views == label_views(labels@),
            labels_fit(views),
            out@ == labels_wire(views.take(i as int)),
        decreases labels@.len() - i,
    {
        let label = &labels[i];
        assert(views[i as int] == label@);
        assert(1 <= views[i as int].len() <= 63);
        out.push(label.len() as u8);
        push_bytes(&mut out, label.as_slice());
        proof {
            lemma_labels_wire_push(views.take(i as int), label@);
            assert(views.take(i + 1) =~= views.take(i as int).push(label@));
        }
        i = i + 1;
    }
    assert(views.take(i as int) =~= views);
    out.push(0);
    out
}

/// The labels joined by dots.
fn dotted_of(labels: &Vec<Vec<u8>>) -> (r: Vec<u8>)
    ensures
        r@ == dotted(label_views(labels@)),
{
    let ghost views = label_views(labels@);
    let mut out: Vec<u8> = Vec::new();
    let mut i: usize = 0;
    while i < labels.len()
        invariant
            i <= labels@.len(),
            views == label_views(labels@),
            out@ == dotted(views.take(i as int)),
        decreases labels@.len() - i,
    {
        let label = &labels[i];
        assert(views[i as int] == label@);
        if i > 0 {
            out.push(DOT);
        }
        push_bytes(&mut out, label.as_slice());
        proof {
            lemma_dotted_push(views.take(i as int), label@);
            assert(views.take(i + 1) =~= views.take(i as int).push(label@));
            if i == 0 {
                assert(out@ =~= label@);
            }
        }
        i = i + 1;
    }
    assert(views.take(i as int) =~= views);
    out
}

/// Splits the text of a name at its dots.
pub fn text_to_labels(t: &[u8]) -> (r: Vec<Vec<u8>>)
    ensures
        label_views(r@) == text_labels(t@),
{
    let mut labels: Vec<Vec<u8>> = Vec::new();
    if t.len() == 0 {
        assert(label_views(labels@) =~= text_labels(t@));
        return labels;
    }
    let mut cur: Vec<u8> = Vec::new();
    let mut i: usize = 0;
    assert(label_views(labels@) + split_from(t@, 0, cur@) =~= split_from(t@, 0, seq![]));
    while i < t.len()
        invariant
            i <= t@.len(),
            t@.len() > 0,
            label_views(labels@) + split_from(t@, i as int, cur@) == split_from(t@, 0, seq![]),
        decreases t@.len() - i,
    {
        let ghost before = label_views(labels@);
        if t[i] == DOT {
            let ghost done = cur@;
            labels.push(cur);
            cur = Vec::new();
            assert(label_views(labels@) =~= before.push(done));
            assert(label_views(labels@) + split_from(t@, i + 1, cur@) =~= before + (seq![done]
                + split_from(t@, i + 1, seq![])));
        } else {
            cur.push(t[i]);
        }
        i = i + 1;
    }
    let ghost before = label_views(labels@);
    let ghost last = cur@;
    labels.push(cur);
    assert(label_views(labels@) =~= before + seq![last]);
    labels
}

/// Whether labels hold 1 to 63 bytes each and fit in the length limit of a
/// name.
pub fn labels_fit_check(labels: &Vec<Vec<u8>>) -> (r: bool)
    ensures
        r == (labels_fit(label_views(labels@)) && labels_wire(label_views(labels@)).len()
            < MAX_NAME_LEN),
{
    let ghost views = label_views(labels@);
    let mut total: usize = 0;
    let mut i: usize = 0;
    while i < labels.len()
        invariant
            i <= labels@.len(),
            views == label_views(labels@),
            total == labels_wire(views.take(i as int)).len(),
            total < MAX_NAME_LEN,
            forall|j: int| 0 <= j < i ==> 1 <= #[trigger] views[j].len() <= 63,
        decreases labels@.len() - i,
    {
        let len = labels[i].len();
        assert(views[i as int] == labels@[i as int]@);
        proof {
            lemma_labels_wire_push(views.take(i as int), views[i as int]);
            assert(views.take(i + 1) =~= views.take(i as int).push(views[i as int]));
            lemma_labels_wire_append(views.take(i + 1), views.skip(i + 1));
            assert(views.take(i + 1) + views.skip(i + 1) =~= views);
        }
        if len < 1 || len > 63 {
            return false;
        }
        if total + 1 + len >= MAX_NAME_LEN {
            return false;
        }
        total = total + 1 + len;
        i = i + 1;
    }
    assert(views.take(i as int) =~= views);
    true
}

/// Decodes the name that starts at `pos` of a message, following pointers,
/// and checks that its text is valid UTF-8. Gives the name in wire form
/// without pointers, and the position just past the name as it is written at
/// `pos`.
pub fn take_name(buf: &[u8], pos: usize) -> (r: Result<(Name, usize), DecodeError>)
    ensures
        crate::agrees(r, name_at(buf@, pos as int)),
{
    let mut labels: Vec<Vec<u8>> = Vec::new();
    let end = take_labels(buf, pos, MAX_POINTER_HOPS, 0, &mut labels)?;
    proof {
        assert(label_views(labels@) =~= Seq::<Seq<u8>>::empty() + label_views(labels@));
        lemma_parsed_labels_fit(buf@, pos as int, MAX_POINTER_HOPS as nat, 0);
    }
    let text = dotted_of(&labels);
    if let None = text_from_utf8(text.as_slice()) {
        return Err(
            DecodeError::IllegalValue(
                "failed to parse domain name: text not valid UTF-8".to_owned(),
            ),
        );
    }
    Ok((Name(wire_of(&labels)), end))
}

/// The text of a name: its labels joined by dots. Fails where the name is not
/// a whole name without pointers, or where its text is not valid UTF-8.
pub fn into_string(name: Name) -> (r: Result<String, DecodeError>)
    ensures
        match name_text(name@) {
            Some(text) => r is Ok && r->Ok_0@ == text,
            None => r is Err && r->Err_0 is IllegalValue,
        },
{
    let mut labels: Vec<Vec<u8>> = Vec::new();
    let parsed = take_labels(name.0.as_slice(), 0, 0, 0, &mut labels);
    proof {
        assert(label_views(labels@) =~= Seq::<Seq<u8>>::empty() + label_views(labels@));
    }
    match parsed {
        Ok(end) => {
            if end != name.0.len() {
                return Err(
                    DecodeError::IllegalValue(
                        "can't stringify domain name: bytes follow its end".to_owned(),
                    ),
                );
            }
        },
        Err(_) => {
            return Err(
                DecodeError::IllegalValue(
                    "can't stringify domain name: it is not a whole name without pointers".to_owned(),
                ),
            );
        },
    }
    let text = dotted_of(&labels);
    match text_from_utf8(text.as_slice()) {
        Some(s) => {
            proof {
                decode_utf8_encode_utf8(text@);
                encode_utf8_decode_utf8(s@);
            }
            Ok(s)
        },
        None => Err(
            DecodeError::IllegalValue(
                "failed to parse value as qname: value not valid UTF-8".to_owned(),
            ),
        ),
    }
}

} // verus!
