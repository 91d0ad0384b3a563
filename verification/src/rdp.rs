//! The remote debugging protocol of Gecko: frames, requests, and the telling
//! apart of replies and events.
//!
//! A frame is the length of a JSON packet in bytes, a colon, and the packet.
use vstd::prelude::*;
use vstd::utf8::{
    decode_utf8, encode_utf8, encode_utf8_decode_utf8, encode_utf8_valid_utf8,
    is_ascii_chars_encode_utf8, valid_utf8,
};
use crate::document::law_the_first_field_of_a_name;
use crate::json::{
    doc, docs, escaped, field, fields_text, law_an_object_of_texts_reads_back, parsed, quote,
    quoted, text_fields, Doc, Json,
};
use crate::text::{
    after_plus, all_digits, decimal, first_at, is_digit, law_decimal_reads_back, lemma_decimal, parse_unsigned,
    push_decimal, same_text, unsigned,
};

verus! {

/// The bytes as characters of the same numbers.
pub open spec fn latin1(bytes: Seq<u8>) -> Seq<char> {
    Seq::new(bytes.len(), |i: int| bytes[i] as char)
}

/// What the front of a buffer holds.
pub enum Front {
    /// A whole packet, and what follows it.
    Whole(Seq<u8>, Seq<u8>),
    /// The rest is still on the wire.
    Partial,
    /// No frame at all.
    Bad,
}

/// What the front of a buffer holds: a length in decimal, a colon, and that
/// many bytes, as far as they have arrived.
pub open spec fn front(buf: Seq<u8>) -> Front {
    match first_at(buf, 58u8, 0) {
        None => Front::Partial,
        Some(colon) => match unsigned(latin1(buf.subrange(0, colon))) {
            None => Front::Bad,
            Some(len) => if len > usize::MAX {
                Front::Bad
            } else if colon + 1 + len > buf.len() {
                Front::Partial
            } else {
                Front::Whole(
                    buf.subrange(colon + 1, colon + 1 + len),
                    buf.subrange(colon + 1 + len, buf.len() as int),
                )
            },
        },
    }
}

/// The server sent something that is not framed.
#[derive(PartialEq, Eq, Structural, Clone, Copy, Debug)]
pub struct BadFrame;

fn position_of(buf: &[u8], b: u8) -> (at: Option<usize>)
    ensures
        match at {
            Some(i) => first_at(buf@, b, 0) == Some(i as int) && i < buf@.len(),
            None => first_at(buf@, b, 0) is None,
        },
{
    let mut i: usize = 0;
    while i < buf.len()
        invariant
            i <= buf@.len(),
            first_at(buf@, b, 0) == first_at(buf@, b, i as int),
        decreases buf@.len() - i,
    {
        if buf[i] == b {
            return Some(i);
        }
        i = i + 1;
    }
    None
}

/// Take one packet off the front of the buffer, as the bytes it came in.
pub fn take_packet(buf: &mut Vec<u8>) -> (taken: Result<Option<Vec<u8>>, BadFrame>)
    ensures
        match taken {
            Ok(Some(body)) => front(old(buf)@) == Front::Whole(body@, final(buf)@),
            Ok(None) => front(old(buf)@) is Partial && final(buf)@ == old(buf)@,
            Err(_) => front(old(buf)@) is Bad && final(buf)@ == old(buf)@,
        },
{
    let n: usize = buf.len();
    let colon: usize = match position_of(buf.as_slice(), 58) {
        Some(i) => i,
        None => return Ok(None),
    };
    let mut header: Vec<char> = Vec::new();
    let mut i: usize = 0;
    while i < colon
        invariant
            i <= colon < buf@.len(),
            buf@ == old(buf)@,
            header@ == latin1(buf@.subrange(0, i as int)),
        decreases colon - i,
    {
        header.push(buf[i] as char);
        i = i + 1;
        proof {
            assert(header@ =~= latin1(buf@.subrange(0, i as int)));
        }
    }
    let len: usize = match parse_unsigned(header.as_slice(), usize::MAX as u64) {
        Some(n) => n as usize,
        None => return Err(BadFrame),
    };
    let start: usize = colon + 1;
    if n - start < len {
        return Ok(None);
    }
    let rest = buf.split_off(start + len);
    let body = buf.split_off(start);
    *buf = rest;
    proof {
        assert(body@ =~= old(buf)@.subrange(start as int, start + len));
    }
    Ok(Some(body))
}

/// Bytes read as UTF-8, with what is not UTF-8 replaced.
pub uninterp spec fn lossy(bytes: Seq<u8>) -> Seq<char>;

/// `String::from_utf8_lossy`: the text depends on the bytes alone, and of
/// bytes that are UTF-8 it is what they encode.  Where the replacement
/// characters go in other bytes is not spelled out.
#[verifier::external_body]
fn from_utf8_lossy(bytes: &[u8]) -> (text: String)
    ensures
        text@ == lossy(bytes@),
        valid_utf8(bytes@) ==> text@ == decode_utf8(bytes@),
{
    String::from_utf8_lossy(bytes).into_owned()
}

/// Take one packet off the front of the buffer, or None while the rest of it
/// is still on the wire.
///
/// The length counts bytes, not characters.
pub fn split_packet(buf: &mut Vec<u8>) -> (taken: Result<Option<String>, BadFrame>)
    ensures
        match taken {
            Ok(Some(text)) => {
                &&& front(old(buf)@) matches Front::Whole(body, rest)
                &&& rest == final(buf)@
                &&& text@ == lossy(body)
                &&& valid_utf8(body) ==> text@ == decode_utf8(body)
            },
            Ok(None) => front(old(buf)@) is Partial && final(buf)@ == old(buf)@,
            Err(_) => front(old(buf)@) is Bad && final(buf)@ == old(buf)@,
        },
{
    match take_packet(buf) {
        Ok(Some(body)) => Ok(Some(from_utf8_lossy(body.as_slice()))),
        Ok(None) => Ok(None),
        Err(e) => Err(e),
    }
}

/// A packet with its length in front.
pub open spec fn framed(body: Seq<u8>) -> Seq<u8> {
    encode_utf8(decimal(body.len())) + seq![58u8] + body
}

proof fn lemma_digits_hold_no_colon(n: nat)
    ensures
        ({
            let bytes = encode_utf8(decimal(n));
            &&& latin1(bytes) == decimal(n)
            &&& forall|i: int| 0 <= i < bytes.len() ==> #[trigger] bytes[i] != 58u8
        }),
{
    lemma_decimal(n);
    is_ascii_chars_encode_utf8(decimal(n));
    let chars = decimal(n);
    let bytes = encode_utf8(chars);
    assert forall|i: int| 0 <= i < bytes.len() implies #[trigger] bytes[i] != 58u8 by {
        assert(is_digit(chars[i]));
        assert(chars[i] as u8 == bytes[i]);
    }
    assert forall|i: int| 0 <= i < bytes.len() implies #[trigger] bytes[i] as char == chars[i] by {
        assert(is_digit(chars[i]));
        assert(chars[i] as u8 == bytes[i]);
    }
    assert(latin1(bytes) =~= chars);
}

proof fn lemma_first_at_prefix(a: Seq<u8>, rest: Seq<u8>, x: u8, from: int)
    requires
        0 <= from <= a.len(),
        forall|i: int| 0 <= i < a.len() ==> #[trigger] a[i] != x,
    ensures
        first_at(a, x, from) is None,
        first_at(a + seq![x] + rest, x, from) == Some(a.len() as int),
    decreases a.len() - from,
{
    if from < a.len() {
        lemma_first_at_prefix(a, rest, x, from + 1);
        assert(a[from] != x);
    }
}

/// What was framed is taken off as it was, and what follows it stays: frames
/// may arrive batched.
pub proof fn law_a_frame_reads_back(body: Seq<u8>, rest: Seq<u8>)
    requires
        body.len() <= usize::MAX,
    ensures
        front(framed(body) + rest) == Front::Whole(body, rest),
{
    let head = encode_utf8(decimal(body.len()));
    let buf = framed(body) + rest;
    lemma_digits_hold_no_colon(body.len());
    lemma_first_at_prefix(head, body + rest, 58u8, 0);
    assert(buf =~= head + seq![58u8] + (body + rest));
    assert(buf.subrange(0, head.len() as int) =~= head);
    law_decimal_reads_back(body.len());
    let at = head.len() + 1;
    assert(buf.subrange(at as int, (at + body.len()) as int) =~= body);
    assert(buf.subrange((at + body.len()) as int, buf.len() as int) =~= rest);
}

/// A frame that has arrived only in part is left where it is until the rest
/// comes.
pub proof fn law_a_cut_frame_waits(body: Seq<u8>, cut: int)
    requires
        body.len() <= usize::MAX,
        0 <= cut < framed(body).len(),
    ensures
        front(framed(body).subrange(0, cut)) is Partial,
{
    let head = encode_utf8(decimal(body.len()));
    let buf = framed(body).subrange(0, cut);
    lemma_digits_hold_no_colon(body.len());
    if cut <= head.len() {
        assert(forall|i: int| 0 <= i < buf.len() ==> #[trigger] buf[i] == head[i]);
        lemma_first_at_prefix(buf, seq![], 58u8, 0);
    } else {
        let got = body.subrange(0, cut - head.len() - 1);
        lemma_first_at_prefix(head, got, 58u8, 0);
        assert(buf =~= head + seq![58u8] + got);
        assert(buf.subrange(0, head.len() as int) =~= head);
        law_decimal_reads_back(body.len());
    }
}

proof fn lemma_first_at_extended(a: Seq<u8>, more: Seq<u8>, x: u8, from: int)
    requires
        0 <= from,
    ensures
        first_at(a, x, from) matches Some(i) ==> first_at(a + more, x, from) == Some(i) && from <= i
            < a.len(),
    decreases a.len() - from,
{
    if from < a.len() && a[from] != x {
        lemma_first_at_extended(a, more, x, from + 1);
    }
}

/// What arrives later does not change a packet that is already whole.
pub proof fn law_later_bytes_change_no_packet(buf: Seq<u8>, more: Seq<u8>)
    ensures
        front(buf) matches Front::Whole(body, rest) ==> front(buf + more) == Front::Whole(
            body,
            rest + more,
        ),
        front(buf) is Bad ==> front(buf + more) is Bad,
{
    lemma_first_at_extended(buf, more, 58u8, 0);
    if let Some(colon) = first_at(buf, 58u8, 0) {
        let all = buf + more;
        assert(all.subrange(0, colon) =~= buf.subrange(0, colon));
        if let Front::Whole(body, rest) = front(buf) {
            let at = colon + 1;
            let len = body.len();
            assert(all.subrange(at, at + len) =~= body);
            assert(all.subrange(at + len, all.len() as int) =~= rest + more);
        }
    }
}

/// A request to an actor, before it is framed.  `extra` is a rendered fragment
/// of JSON fields, each with its leading comma, or nothing.
pub open spec fn request_body(to: Seq<char>, kind: Seq<char>, extra: Seq<char>) -> Seq<char> {
    "{\"to\":"@ + quoted(to) + ",\"type\":"@ + quoted(kind) + extra + "}"@
}

/// The request as it goes over the wire.
pub open spec fn request_text(to: Seq<char>, kind: Seq<char>, extra: Seq<char>) -> Seq<char> {
    let body = request_body(to, kind, extra);
    decimal(encode_utf8(body).len()) + ":"@ + body
}

/// A request to an actor, framed.
pub fn request(to: &str, kind: &str, extra: &str) -> (text: String)
    ensures
        text@ == request_text(to@, kind@, extra@),
{
    let mut body = String::new();
    body.append("{\"to\":");
    let q = quote(to);
    body.append(q.as_str());
    body.append(",\"type\":");
    let q = quote(kind);
    body.append(q.as_str());
    body.append(extra);
    body.append("}");
    proof {
        assert(body@ =~= request_body(to@, kind@, extra@));
    }
    let bytes = body.as_str().as_bytes();
    let mut text = String::new();
    push_decimal(&mut text, bytes.len() as u64);
    text.append(":");
    text.append(body.as_str());
    proof {
        assert(text@ =~= request_text(to@, kind@, extra@));
    }
    text
}

proof fn lemma_encode_concat(a: Seq<char>, b: Seq<char>)
    ensures
        encode_utf8(a + b) == encode_utf8(a) + encode_utf8(b),
    decreases a.len(),
{
    if a.len() == 0 {
        assert(a + b =~= b);
        assert(encode_utf8(a) + encode_utf8(b) =~= encode_utf8(b));
    } else {
        lemma_encode_concat(a.drop_first(), b);
        assert((a + b).drop_first() =~= a.drop_first() + b);
        assert((a + b)[0] == a[0]);
        assert(encode_utf8(a + b) =~= encode_utf8(a) + encode_utf8(b));
    }
}

/// The other end takes a request off the wire as the packet that was meant,
/// with nothing left over.
pub proof fn law_a_request_is_one_frame(to: Seq<char>, kind: Seq<char>, extra: Seq<char>)
    requires
        encode_utf8(request_body(to, kind, extra)).len() <= usize::MAX,
    ensures
        ({
            let body = request_body(to, kind, extra);
            &&& front(encode_utf8(request_text(to, kind, extra))) == Front::Whole(
                encode_utf8(body),
                seq![],
            )
            &&& valid_utf8(encode_utf8(body))
            &&& decode_utf8(encode_utf8(body)) == body
        }),
{
    let body = request_body(to, kind, extra);
    let bytes = encode_utf8(body);
    let head = decimal(bytes.len());
    reveal_strlit(":");
    assert(":"@ =~= seq![':']);
    lemma_encode_concat(head + ":"@, body);
    lemma_encode_concat(head, ":"@);
    is_ascii_chars_encode_utf8(":"@);
    assert(encode_utf8(":"@) =~= seq![58u8]);
    law_a_frame_reads_back(bytes, seq![]);
    assert(framed(bytes) + seq![] =~= framed(bytes));
    encode_utf8_valid_utf8(body);
    encode_utf8_decode_utf8(body);
}

/// A field to follow the two that every request has.
pub open spec fn extra_field(name: Seq<char>, value: Seq<char>) -> Seq<char> {
    ","@ + quoted(name) + ":"@ + quoted(value)
}

pub proof fn lemma_request_literals()
    ensures
        "{\"to\":"@ == seq!['{'] + quoted("to"@) + seq![':'],
        ",\"type\":"@ == seq![','] + quoted("type"@) + seq![':'],
        "}"@ == seq!['}'],
        ":"@ == seq![':'],
        ","@ == seq![','],
{
    reveal_strlit("{\"to\":");
    reveal_strlit(",\"type\":");
    reveal_strlit("}");
    reveal_strlit(":");
    reveal_strlit(",");
    reveal_strlit("to");
    reveal_strlit("type");
    reveal_with_fuel(escaped, 5);
    assert("to"@ =~= seq!['t', 'o']);
    assert("type"@ =~= seq!['t', 'y', 'p', 'e']);
    assert(escaped("to"@) =~= seq!['t', 'o']);
    assert(escaped("type"@) =~= seq!['t', 'y', 'p', 'e']);
    assert("{\"to\":"@ =~= seq!['{'] + quoted("to"@) + seq![':']);
    assert(",\"type\":"@ =~= seq![','] + quoted("type"@) + seq![':']);
    assert("}"@ =~= seq!['}']);
    assert(":"@ =~= seq![':']);
    assert(","@ =~= seq![',']);
}

/// The same pieces in the same order, put together the two ways that a request
/// and an object put them.
proof fn lemma_pieces(
    name1: Seq<char>,
    text1: Seq<char>,
    name2: Seq<char>,
    text2: Seq<char>,
    more: Seq<char>,
)
    ensures
        seq!['{'] + (name1 + seq![':'] + text1 + seq![','] + (name2 + seq![':'] + text2 + more))
            + seq!['}'] == (seq!['{'] + name1 + seq![':']) + text1 + (seq![','] + name2 + seq![':'])
            + text2 + more + seq!['}'],
{
    assert(seq!['{'] + (name1 + seq![':'] + text1 + seq![','] + (name2 + seq![':'] + text2 + more))
        + seq!['}'] =~= (seq!['{'] + name1 + seq![':']) + text1 + (seq![','] + name2 + seq![':'])
        + text2 + more + seq!['}']);
}

proof fn lemma_plain_request(to: Seq<char>, kind: Seq<char>)
    ensures
        parsed(request_body(to, kind, seq![])) == Some(
            Doc::Obj(text_fields(seq![("to"@, to), ("type"@, kind)])),
        ),
{
    lemma_request_literals();
    let one = seq![("type"@, kind)];
    let two = seq![("to"@, to), ("type"@, kind)];
    law_an_object_of_texts_reads_back(two);
    assert(two.drop_first() =~= one);
    let second = quoted("type"@) + seq![':'] + quoted(kind);
    assert(fields_text(one) == second);
    assert(second + seq![] =~= second);
    assert(fields_text(two) == quoted("to"@) + seq![':'] + quoted(to) + seq![','] + second);
    lemma_pieces(quoted("to"@), quoted(to), quoted("type"@), quoted(kind), seq![]);
}

proof fn lemma_three_fields(
    a: (Seq<char>, Seq<char>),
    b: (Seq<char>, Seq<char>),
    c: (Seq<char>, Seq<char>),
)
    ensures
        fields_text(seq![a, b, c]) == quoted(a.0) + seq![':'] + quoted(a.1) + seq![','] + (quoted(b.0)
            + seq![':'] + quoted(b.1) + (seq![','] + quoted(c.0) + seq![':'] + quoted(c.1))),
{
    let three = seq![a, b, c];
    let two = seq![b, c];
    assert(three.drop_first() =~= two);
    assert(two.drop_first() =~= seq![c]);
    let second = quoted(b.0) + seq![':'] + quoted(b.1);
    let third = quoted(c.0) + seq![':'] + quoted(c.1);
    assert(fields_text(seq![c]) == third);
    assert(fields_text(two) == second + seq![','] + third);
    lemma_regroup(second, quoted(c.0), quoted(c.1));
}

proof fn lemma_regroup(second: Seq<char>, name: Seq<char>, text: Seq<char>)
    ensures
        second + seq![','] + (name + seq![':'] + text) == second + (seq![','] + name + seq![':']
            + text),
{
    assert(second + seq![','] + (name + seq![':'] + text) =~= second + (seq![','] + name + seq![
        ':',
    ] + text));
}

proof fn lemma_request_with_extra(
    to: Seq<char>,
    kind: Seq<char>,
    name: Seq<char>,
    value: Seq<char>,
)
    ensures
        parsed(request_body(to, kind, extra_field(name, value))) == Some(
            Doc::Obj(text_fields(seq![("to"@, to), ("type"@, kind), (name, value)])),
        ),
{
    lemma_request_literals();
    law_an_object_of_texts_reads_back(seq![("to"@, to), ("type"@, kind), (name, value)]);
    lemma_three_fields(("to"@, to), ("type"@, kind), (name, value));
    lemma_pieces(
        quoted("to"@),
        quoted(to),
        quoted("type"@),
        quoted(kind),
        extra_field(name, value),
    );
}

/// The packet of a request is the object that was meant, whatever its texts
/// hold.
pub proof fn law_a_request_parses(to: Seq<char>, kind: Seq<char>, name: Seq<char>, value: Seq<char>)
    ensures
        parsed(request_body(to, kind, seq![])) == Some(
            Doc::Obj(text_fields(seq![("to"@, to), ("type"@, kind)])),
        ),
        parsed(request_body(to, kind, extra_field(name, value))) == Some(
            Doc::Obj(text_fields(seq![("to"@, to), ("type"@, kind), (name, value)])),
        ),
{
    lemma_plain_request(to, kind);
    lemma_request_with_extra(to, kind, name, value);
}

/// Is this packet the reply that is waited for?
///
/// An event carries a `type` and a reply does not.  `want` names the
/// exception: a reply that is delivered as an event of that type.
pub open spec fn replies(pkt: Doc, to: Seq<char>, want: Option<Seq<char>>) -> bool {
    &&& text_of(pkt, "from"@) == to
    &&& match want {
        Some(kind) => text_of(pkt, "type"@) == kind,
        None => field(pkt, "type"@) is None,
    }
}

/// A string field, empty when it is missing or is not a string.
pub open spec fn text_of(d: Doc, key: Seq<char>) -> Seq<char> {
    match field(d, key) {
        Some(Doc::Str(t)) => t,
        _ => seq![],
    }
}

pub open spec fn want_view(want: Option<&str>) -> Option<Seq<char>> {
    match want {
        Some(k) => Some(k@),
        None => None,
    }
}

/// Is this packet the reply that is waited for?
pub fn is_reply(pkt: &Json, to: &str, want: Option<&str>) -> (yes: bool)
    ensures
        yes == replies(doc(*pkt), to@, want_view(want)),
{
    if !same_text(pkt.text("from"), to) {
        return false;
    }
    match want {
        Some(kind) => same_text(pkt.text("type"), kind),
        None => pkt.get("type").is_none(),
    }
}

pub open spec fn reply_from(parked: Seq<Doc>, to: Seq<char>, want: Option<Seq<char>>, i: int) -> Option<
    int,
>
    decreases parked.len() - i,
{
    if i < 0 || i >= parked.len() {
        None
    } else if replies(parked[i], to, want) {
        Some(i)
    } else {
        reply_from(parked, to, want, i + 1)
    }
}

/// Packets that came before anyone asked for them.  Requests are pipelined, so
/// out of order is normal.
pub struct Mailbox {
    parked: Vec<Json>,
}

impl View for Mailbox {
    type V = Seq<Doc>;

    closed spec fn view(&self) -> Seq<Doc> {
        docs(self.parked@)
    }
}

impl Mailbox {
    pub fn new() -> (m: Mailbox)
        ensures
            m@ == Seq::<Doc>::empty(),
    {
        let m = Mailbox { parked: Vec::new() };
        proof {
            assert(m@ =~= Seq::<Doc>::empty());
        }
        m
    }

    /// The first parked packet that is the reply waited for, taken out.
    pub fn take(&mut self, to: &str, want: Option<&str>) -> (pkt: Option<Json>)
        ensures
            match pkt {
                Some(j) => {
                    &&& reply_from(old(self)@, to@, want_view(want), 0) matches Some(i)
                    &&& doc(j) == old(self)@[i]
                    &&& final(self)@ == old(self)@.remove(i)
                },
                None => reply_from(old(self)@, to@, want_view(want), 0) is None && final(self)@
                    == old(self)@,
            },
    {
        let mut i: usize = 0;
        while i < self.parked.len()
            invariant
                i <= self.parked@.len(),
                self@ == old(self)@,
                reply_from(self@, to@, want_view(want), 0) == reply_from(
                    self@,
                    to@,
                    want_view(want),
                    i as int,
                ),
            decreases self.parked@.len() - i,
        {
            if is_reply(&self.parked[i], to, want) {
                let ghost before = self@;
                let pkt = self.parked.remove(i);
                proof {
                    assert(self@ =~= before.remove(i as int));
                }
                return Some(pkt);
            }
            i = i + 1;
        }
        None
    }

    /// A packet that has just arrived: handed back if it is the reply waited
    /// for, and parked behind the others if it is not.
    pub fn offer(&mut self, pkt: Json, to: &str, want: Option<&str>) -> (got: Option<Json>)
        ensures
            match got {
                Some(j) => j == pkt && replies(doc(pkt), to@, want_view(want)) && final(self)@
                    == old(self)@,
                None => !replies(doc(pkt), to@, want_view(want)) && final(self)@ == old(
                    self,
                )@.push(doc(pkt)),
            },
    {
        if is_reply(&pkt, to, want) {
            Some(pkt)
        } else {
            let ghost before = self@;
            let ghost d = doc(pkt);
            self.parked.push(pkt);
            proof {
                assert(self@ =~= before.push(d));
            }
            None
        }
    }
}

/// An event is never taken for a plain reply, nor a plain reply for an event.
pub proof fn law_events_are_not_replies(pkt: Doc, to: Seq<char>, kind: Seq<char>)
    requires
        kind.len() > 0,
    ensures
        !(replies(pkt, to, None) && replies(pkt, to, Some(kind))),
        field(pkt, "type"@) is Some ==> !replies(pkt, to, None),
{
}

/// A text field of an object is what it holds; what is missing or holds anything
/// else reads as an empty text.
pub proof fn law_text_fields(d: Doc, key: Seq<char>, t: Seq<char>)
    ensures
        field(d, key) == Some(Doc::Str(t)) ==> text_of(d, key) == t,
        !(field(d, key) matches Some(Doc::Str(_))) ==> text_of(d, key) =~= seq![],
{
}

/// A packet that says from whom it comes and nothing of its type is the reply
/// that is waited for from that actor, and from no other; one with a type is the
/// event of that type, and no plain reply.
pub proof fn law_whose_reply_a_packet_is(
    from: Seq<char>,
    kind: Seq<char>,
    to: Seq<char>,
    want: Seq<char>,
    more: Seq<(Seq<char>, Doc)>,
)
    requires
        forall|i: int|
            0 <= i < more.len() ==> (#[trigger] more[i]).0 != "from"@ && more[i].0 != "type"@,
    ensures
        replies(Doc::Obj(seq![("from"@, Doc::Str(from))] + more), to, None) == (from == to),
        want.len() > 0 ==> !replies(
            Doc::Obj(seq![("from"@, Doc::Str(from))] + more),
            to,
            Some(want),
        ),
        !replies(
            Doc::Obj(seq![("from"@, Doc::Str(from)), ("type"@, Doc::Str(kind))] + more),
            to,
            None,
        ),
        replies(
            Doc::Obj(seq![("from"@, Doc::Str(from)), ("type"@, Doc::Str(kind))] + more),
            to,
            Some(want),
        ) == (from == to && kind == want),
{
    reveal_strlit("from");
    reveal_strlit("type");
    assert("from"@[0] == 'f' && "type"@[0] == 't');
    let plain = Doc::Obj(seq![("from"@, Doc::Str(from))] + more);
    let event = Doc::Obj(seq![("from"@, Doc::Str(from)), ("type"@, Doc::Str(kind))] + more);
    let fp = seq![("from"@, Doc::Str(from))] + more;
    let fe = seq![("from"@, Doc::Str(from)), ("type"@, Doc::Str(kind))] + more;
    assert(fp[0] == ("from"@, Doc::Str(from)));
    assert(fe[0] == ("from"@, Doc::Str(from)) && fe[1] == ("type"@, Doc::Str(kind)));
    assert forall|j: int| 0 <= j < fp.len() implies (#[trigger] fp[j]).0 != "type"@ by {
        if j > 0 {
            assert(fp[j] == more[j - 1]);
        }
    }
    law_the_first_field_of_a_name(plain, "from"@, 0);
    law_the_first_field_of_a_name(plain, "type"@, 0);
    law_the_first_field_of_a_name(event, "from"@, 0);
    law_the_first_field_of_a_name(event, "type"@, 1);
}

/// Of the packets that are parked, the first that is the reply is taken; where
/// none is, none is taken.
pub proof fn law_the_first_reply_is_taken(
    parked: Seq<Doc>,
    to: Seq<char>,
    want: Option<Seq<char>>,
    k: int,
)
    ensures
        0 <= k < parked.len() && replies(parked[k], to, want) && (forall|j: int|
            0 <= j < k ==> !replies(#[trigger] parked[j], to, want)) ==> reply_from(
            parked,
            to,
            want,
            0,
        ) == Some(k),
        (forall|j: int| 0 <= j < parked.len() ==> !replies(#[trigger] parked[j], to, want))
            ==> reply_from(parked, to, want, 0) is None,
{
    lemma_reply_from(parked, to, want, 0);
}

proof fn lemma_reply_from(parked: Seq<Doc>, to: Seq<char>, want: Option<Seq<char>>, i: int)
    requires
        0 <= i,
    ensures
        match reply_from(parked, to, want, i) {
            Some(k) => i <= k < parked.len() && replies(parked[k], to, want) && forall|j: int|
                i <= j < k ==> !replies(#[trigger] parked[j], to, want),
            None => forall|j: int|
                i <= j < parked.len() ==> !replies(#[trigger] parked[j], to, want),
        },
    decreases parked.len() - i,
{
    if i < parked.len() && !replies(parked[i], to, want) {
        lemma_reply_from(parked, to, want, i + 1);
    }
}

/// What has no colon yet is waited for; what stands before the first colon and
/// is no number is no frame, whatever follows.
pub proof fn law_what_is_no_frame(head: Seq<u8>, rest: Seq<u8>)
    requires
        forall|i: int| 0 <= i < head.len() ==> #[trigger] head[i] != 58,
    ensures
        front(head) is Partial,
        (exists|i: int|
            0 <= i < head.len() && !(48 <= #[trigger] head[i] <= 57) && !(i == 0 && head[i] == 43))
            ==> front(head + seq![58u8] + rest) is Bad,
        head.len() == 0 ==> front(head + seq![58u8] + rest) is Bad,
{
    lemma_first_at_prefix(head, rest, 58u8, 0);
    let buf = head + seq![58u8] + rest;
    assert(buf.subrange(0, head.len() as int) =~= head);
    let t = latin1(head);
    if exists|i: int|
        0 <= i < head.len() && !(48 <= #[trigger] head[i] <= 57) && !(i == 0 && head[i] == 43) {
        let i = choose|i: int|
            0 <= i < head.len() && !(48 <= #[trigger] head[i] <= 57) && !(i == 0 && head[i] == 43);
        assert(t[i] == head[i] as char);
        assert(!is_digit(t[i]));
        if t.len() > 0 && t[0] == '+' {
            assert(head[0] == 43);
            assert(after_plus(t)[i - 1] == t[i]);
        }
        assert(!all_digits(after_plus(t)));
    }
}

/// A length that cannot be the length of anything is no frame.
pub proof fn law_a_length_beyond_all_is_no_frame(n: nat, rest: Seq<u8>)
    requires
        n > usize::MAX,
    ensures
        front(encode_utf8(decimal(n)) + seq![58u8] + rest) is Bad,
{
    let head = encode_utf8(decimal(n));
    let buf = head + seq![58u8] + rest;
    lemma_digits_hold_no_colon(n);
    lemma_first_at_prefix(head, rest, 58u8, 0);
    assert(buf.subrange(0, head.len() as int) =~= head);
    law_decimal_reads_back(n);
}

} // verus!
