//! Documents as they are written: what the reading of one gives back.
use vstd::prelude::*;
use crate::json::{
    after_sign, escape_at, escaped, escaped_char, field, field_from, fields_at, hex4, hex_value,
    in_number, is_number, is_space, items_at, law_a_quoted_text_reads_back, lemma_skip_space,
    lemma_stands_first, lemma_stands_split, number_end, parsed, quoted, skip_space, stands_at,
    string_at, string_rest, value_at, Doc,
};
use crate::text::{decimal, digits_end, is_digit, lemma_decimal};

verus! {

/// White space only: blanks, tabs and line ends.
pub open spec fn all_space(s: Seq<char>) -> bool {
    forall|i: int|
        0 <= i < s.len() ==> #[trigger] s[i] == ' ' || s[i] == '\t' || s[i] == '\n' || s[i] == '\r'
}

/// How many items or fields a document has.
pub open spec fn width(d: Doc) -> int {
    match d {
        Doc::Arr(items) => items.len() as int,
        Doc::Obj(fields) => fields.len() as int,
        _ => 0,
    }
}

/// A document written out, with `gap` wherever there may be white space.
pub open spec fn written(d: Doc, gap: Seq<char>) -> Seq<char>
    decreases d, width(d) + 1,
{
    match d {
        Doc::Null => seq!['n', 'u', 'l', 'l'],
        Doc::Bool(b) => if b {
            seq!['t', 'r', 'u', 'e']
        } else {
            seq!['f', 'a', 'l', 's', 'e']
        },
        Doc::Num(n) => n,
        Doc::Str(s) => quoted(s),
        Doc::Arr(items) => if items.len() == 0 {
            seq!['['] + gap + seq![']']
        } else {
            seq!['['] + (items_written(d, 0, gap) + seq![']'])
        },
        Doc::Obj(fields) => if fields.len() == 0 {
            seq!['{'] + gap + seq!['}']
        } else {
            seq!['{'] + (fields_written(d, 0, gap) + seq!['}'])
        },
    }
}

/// The items of an array from the `k`th on, with commas between.
pub open spec fn items_written(d: Doc, k: int, gap: Seq<char>) -> Seq<char>
    decreases d, width(d) - k,
{
    match d {
        Doc::Arr(items) => if 0 <= k < items.len() {
            let first = gap + written(items[k], gap) + gap;
            if k + 1 < items.len() {
                first + (seq![','] + items_written(d, k + 1, gap))
            } else {
                first
            }
        } else {
            seq![]
        },
        _ => seq![],
    }
}

/// The fields of an object from the `k`th on, with commas between.
pub open spec fn fields_written(d: Doc, k: int, gap: Seq<char>) -> Seq<char>
    decreases d, width(d) - k,
{
    match d {
        Doc::Obj(fields) => if 0 <= k < fields.len() {
            let first = gap + quoted(fields[k].0) + gap + (seq![':'] + (gap + written(
                fields[k].1,
                gap,
            ) + gap));
            if k + 1 < fields.len() {
                first + (seq![','] + fields_written(d, k + 1, gap))
            } else {
                first
            }
        } else {
            seq![]
        },
        _ => seq![],
    }
}

/// The numbers in a document are numbers.
pub open spec fn sound(d: Doc) -> bool
    decreases d,
{
    match d {
        Doc::Num(n) => is_number(n),
        Doc::Arr(items) => forall|i: int| 0 <= i < items.len() ==> sound(#[trigger] items[i]),
        Doc::Obj(fields) => forall|i: int|
            0 <= i < fields.len() ==> sound((#[trigger] fields[i]).1),
        _ => true,
    }
}

proof fn lemma_gap(whole: Seq<char>, at: int, gap: Seq<char>)
    requires
        0 <= at,
        stands_at(whole, at, gap),
        all_space(gap),
        at + gap.len() < whole.len() ==> !is_space(whole[at + gap.len()]),
    ensures
        skip_space(whole, at) == at + gap.len(),
    decreases gap.len(),
{
    if gap.len() > 0 {
        let rest = gap.skip(1);
        lemma_stands_first(whole, at, gap);
        assert(gap =~= seq![gap[0]] + rest);
        lemma_stands_split(whole, at, seq![gap[0]], rest);
        assert(is_space(gap[0]));
        assert forall|i: int| 0 <= i < rest.len() implies #[trigger] rest[i] == ' ' || rest[i]
            == '\t' || rest[i] == '\n' || rest[i] == '\r' by {
            assert(rest[i] == gap[i + 1]);
        }
        lemma_gap(whole, at + 1, rest);
    }
}

proof fn lemma_digits_end(t: Seq<char>, at: int)
    requires
        0 <= at <= t.len(),
    ensures
        at <= digits_end(t, at) <= t.len(),
        forall|i: int| at <= i < digits_end(t, at) ==> is_digit(#[trigger] t[i]),
        digits_end(t, at) < t.len() ==> !is_digit(t[digits_end(t, at)]),
    decreases t.len() - at,
{
    if at < t.len() && is_digit(t[at]) {
        lemma_digits_end(t, at + 1);
    }
}

/// A number is written with digits, signs, points and the letter of an exponent,
/// and with at least one of them.
pub proof fn law_what_numbers_are_written_with(t: Seq<char>)
    requires
        is_number(t),
    ensures
        t.len() > 0,
        forall|i: int|
            0 <= i < t.len() ==> '0' <= #[trigger] t[i] <= '9' || t[i] == '-' || t[i] == '+' || t[i]
                == '.' || t[i] == 'e' || t[i] == 'E',
{
    let whole = after_sign(t, 0);
    lemma_digits_end(t, whole);
    let point = digits_end(t, whole);
    let end = if point < t.len() && t[point] == '.' {
        lemma_digits_end(t, point + 1);
        digits_end(t, point + 1)
    } else {
        point
    };
    if end < t.len() {
        let exp = after_sign(t, end + 1);
        lemma_digits_end(t, exp);
    }
}

proof fn lemma_number_end(whole: Seq<char>, at: int, t: Seq<char>)
    requires
        0 <= at,
        stands_at(whole, at, t),
        forall|i: int| 0 <= i < t.len() ==> in_number(#[trigger] t[i]),
        at + t.len() < whole.len() ==> !in_number(whole[at + t.len()]),
    ensures
        number_end(whole, at) == at + t.len(),
    decreases t.len(),
{
    if t.len() > 0 {
        let rest = t.skip(1);
        lemma_stands_first(whole, at, t);
        assert(t =~= seq![t[0]] + rest);
        lemma_stands_split(whole, at, seq![t[0]], rest);
        assert forall|i: int| 0 <= i < rest.len() implies in_number(#[trigger] rest[i]) by {
            assert(rest[i] == t[i + 1]);
        }
        lemma_number_end(whole, at + 1, rest);
    }
}

proof fn lemma_written_begins(d: Doc, gap: Seq<char>)
    requires
        sound(d),
    ensures
        written(d, gap).len() > 0,
        !is_space(written(d, gap)[0]),
        written(d, gap)[0] != ']' && written(d, gap)[0] != '}',
{
    match d {
        Doc::Num(n) => {
            law_what_numbers_are_written_with(n);
            assert(in_number(n[0]));
        },
        Doc::Str(s) => {
            assert(quoted(s)[0] == '"');
        },
        _ => {},
    }
}

/// A value that stands in a text, with white space before it, is read as it was
/// written.
proof fn lemma_value(whole: Seq<char>, at: int, d: Doc, gap: Seq<char>)
    requires
        0 <= at,
        stands_at(whole, at, gap + written(d, gap)),
        all_space(gap),
        sound(d),
        d is Num ==> at + gap.len() + written(d, gap).len() < whole.len() ==> !in_number(
            whole[at + gap.len() + written(d, gap).len()],
        ),
    ensures
        value_at(whole, at) == Some((d, at + gap.len() + written(d, gap).len())),
        written(d, gap).len() > 0,
    decreases d, width(d) + 1,
{
    let w = written(d, gap);
    let p = at + gap.len();
    lemma_stands_split(whole, at, gap, w);
    lemma_written_begins(d, gap);
    lemma_stands_first(whole, p, w);
    lemma_gap(whole, at, gap);
    match d {
        Doc::Null => {
            reveal_strlit("null");
            assert(w =~= "null"@);
        },
        Doc::Bool(b) => {
            reveal_strlit("true");
            reveal_strlit("false");
            if b {
                assert(w =~= "true"@);
            } else {
                assert(w =~= "false"@);
            }
        },
        Doc::Num(n) => {
            law_what_numbers_are_written_with(n);
            lemma_number_end(whole, p, n);
            assert(whole.subrange(p, p + n.len()) == n);
            assert(in_number(n[0]));
        },
        Doc::Str(s) => {
            law_a_quoted_text_reads_back(whole, p, s);
        },
        Doc::Arr(items) => {
            if items.len() == 0 {
                assert(w =~= seq!['['] + (gap + seq![']']));
                lemma_stands_split(whole, p, seq!['['], gap + seq![']']);
                lemma_stands_split(whole, p + 1, gap, seq![']']);
                lemma_stands_first(whole, p + 1 + gap.len(), seq![']']);
                lemma_gap(whole, p + 1, gap);
                assert(items =~= seq![]);
            } else {
                let inner = items_written(d, 0, gap) + seq![']'];
                lemma_stands_split(whole, p, seq!['['], inner);
                lemma_items(whole, p + 1, d, 0, gap);
                assert(items.skip(0) =~= items);
                let first = written(items[0], gap);
                assert(inner.take((gap.len() + first.len()) as int) =~= gap + first);
                lemma_inner_begins(whole, p + 1, gap, first, inner, items[0]);
            }
        },
        Doc::Obj(fields) => {
            if fields.len() == 0 {
                assert(w =~= seq!['{'] + (gap + seq!['}']));
                lemma_stands_split(whole, p, seq!['{'], gap + seq!['}']);
                lemma_stands_split(whole, p + 1, gap, seq!['}']);
                lemma_stands_first(whole, p + 1 + gap.len(), seq!['}']);
                lemma_gap(whole, p + 1, gap);
                assert(fields =~= seq![]);
            } else {
                let inner = fields_written(d, 0, gap) + seq!['}'];
                lemma_stands_split(whole, p, seq!['{'], inner);
                lemma_fields(whole, p + 1, d, 0, gap);
                assert(fields.skip(0) =~= fields);
                let first = quoted(fields[0].0);
                assert(inner.take((gap.len() + first.len()) as int) =~= gap + first);
                lemma_inner_begins(whole, p + 1, gap, first, inner, Doc::Str(fields[0].0));
            }
        },
    }
}

/// What an array or an object begins with is not its end.
proof fn lemma_inner_begins(
    whole: Seq<char>,
    at: int,
    gap: Seq<char>,
    first: Seq<char>,
    inner: Seq<char>,
    d: Doc,
)
    requires
        0 <= at,
        stands_at(whole, at, inner),
        all_space(gap),
        sound(d),
        first == written(d, gap),
        inner.len() >= gap.len() + first.len(),
        inner.take((gap.len() + first.len()) as int) == gap + first,
    ensures
        skip_space(whole, at) < whole.len(),
        whole[skip_space(whole, at)] != ']',
        whole[skip_space(whole, at)] != '}',
{
    let n = (gap.len() + first.len()) as int;
    assert(inner =~= (gap + first) + inner.skip(n)) by {
        assert(inner =~= inner.take(n) + inner.skip(n));
    }
    lemma_stands_split(whole, at, gap + first, inner.skip(n));
    lemma_stands_split(whole, at, gap, first);
    lemma_written_begins(d, gap);
    lemma_stands_first(whole, at + gap.len(), first);
    lemma_gap(whole, at, gap);
}

proof fn lemma_items(whole: Seq<char>, at: int, d: Doc, k: int, gap: Seq<char>)
    requires
        0 <= at,
        d is Arr,
        0 <= k < d->Arr_0.len(),
        stands_at(whole, at, items_written(d, k, gap) + seq![']']),
        all_space(gap),
        sound(d),
    ensures
        items_at(whole, at) == Some(
            (d->Arr_0.skip(k), at + items_written(d, k, gap).len() + 1),
        ),
    decreases d, width(d) - k,
{
    let items = d->Arr_0;
    let v = items[k];
    let w = gap + written(v, gap);
    assert(sound(v));
    if k + 1 < items.len() {
        let tail = items_written(d, k + 1, gap) + seq![']'];
        assert(items_written(d, k, gap) + seq![']'] =~= w + (gap + (seq![','] + tail)));
        lemma_stands_split(whole, at, w, gap + (seq![','] + tail));
        let next = at + w.len();
        lemma_stands_split(whole, next, gap, seq![','] + tail);
        lemma_stands_split(whole, next + gap.len(), seq![','], tail);
        lemma_stands_first(whole, next + gap.len(), seq![',']);
        lemma_gap(whole, next, gap);
        lemma_not_in_number(whole, next, gap);
        lemma_value(whole, at, v, gap);
        lemma_items(whole, next + gap.len() + 1, d, k + 1, gap);
        assert(seq![v] + items.skip(k + 1) =~= items.skip(k));
    } else {
        assert(items_written(d, k, gap) + seq![']'] =~= w + (gap + seq![']']));
        lemma_stands_split(whole, at, w, gap + seq![']']);
        let next = at + w.len();
        lemma_stands_split(whole, next, gap, seq![']']);
        lemma_stands_first(whole, next + gap.len(), seq![']']);
        lemma_gap(whole, next, gap);
        lemma_not_in_number(whole, next, gap);
        lemma_value(whole, at, v, gap);
        assert(seq![v] =~= items.skip(k));
    }
}

/// No number goes on into white space or what ends a value.
proof fn lemma_not_in_number(whole: Seq<char>, at: int, gap: Seq<char>)
    requires
        0 <= at,
        stands_at(whole, at, gap),
        all_space(gap),
        at + gap.len() < whole.len(),
        !in_number(whole[at + gap.len()]),
    ensures
        !in_number(whole[at]),
{
    if gap.len() > 0 {
        lemma_stands_first(whole, at, gap);
        assert(is_space(gap[0]));
    }
}

proof fn lemma_fields(whole: Seq<char>, at: int, d: Doc, k: int, gap: Seq<char>)
    requires
        0 <= at,
        d is Obj,
        0 <= k < d->Obj_0.len(),
        stands_at(whole, at, fields_written(d, k, gap) + seq!['}']),
        all_space(gap),
        sound(d),
    ensures
        fields_at(whole, at) == Some(
            (d->Obj_0.skip(k), at + fields_written(d, k, gap).len() + 1),
        ),
    decreases d, width(d) - k,
{
    let fields = d->Obj_0;
    let (key, v) = fields[k];
    assert(fields[k].1 == v);
    assert(sound(v));
    let more = k + 1 < fields.len();
    let tail = if more {
        fields_written(d, k + 1, gap) + seq!['}']
    } else {
        seq![]
    };
    let close = if more {
        seq![',']
    } else {
        seq!['}']
    };
    let w = gap + written(v, gap);
    let value = w + (gap + (close + tail));
    assert(fields_written(d, k, gap) + seq!['}'] =~= gap + (quoted(key) + (gap + (seq![':']
        + value))));
    lemma_stands_split(whole, at, gap, quoted(key) + (gap + (seq![':'] + value)));
    let a = at + gap.len();
    lemma_stands_split(whole, a, quoted(key), gap + (seq![':'] + value));
    let b = a + quoted(key).len();
    lemma_stands_split(whole, b, gap, seq![':'] + value);
    let c = b + gap.len();
    lemma_stands_split(whole, c, seq![':'], value);
    lemma_stands_split(whole, c + 1, w, gap + (close + tail));
    let next = c + 1 + w.len();
    lemma_stands_split(whole, next, gap, close + tail);
    let e = next + gap.len();
    lemma_stands_split(whole, e, close, tail);
    assert(quoted(key)[0] == '"');
    lemma_stands_first(whole, a, quoted(key));
    lemma_stands_first(whole, c, seq![':']);
    lemma_stands_first(whole, e, close);
    lemma_gap(whole, at, gap);
    lemma_gap(whole, b, gap);
    lemma_gap(whole, next, gap);
    lemma_not_in_number(whole, next, gap);
    law_a_quoted_text_reads_back(whole, a, key);
    lemma_value(whole, c + 1, v, gap);
    if more {
        lemma_fields(whole, e + 1, d, k + 1, gap);
        assert(seq![(key, v)] + fields.skip(k + 1) =~= fields.skip(k));
    } else {
        assert(seq![(key, v)] =~= fields.skip(k));
    }
}

/// Any document reads back as it was written, however deep, with any white
/// space around and between its parts.
pub proof fn law_a_document_reads_back(d: Doc, gap: Seq<char>)
    requires
        sound(d),
        all_space(gap),
    ensures
        parsed(gap + written(d, gap) + gap) == Some(d),
{
    let whole = gap + written(d, gap) + gap;
    let w = gap + written(d, gap);
    assert(whole =~= w + gap);
    assert(whole.subrange(0, whole.len() as int) =~= whole);
    assert(stands_at(whole, 0, w + gap));
    lemma_stands_split(whole, 0, w, gap);
    if gap.len() > 0 {
        lemma_stands_first(whole, w.len() as int, gap);
        assert(is_space(gap[0]));
    }
    lemma_value(whole, 0, d, gap);
    lemma_gap(whole, w.len() as int, gap);
}

/// Nothing but white space may follow a document.
pub proof fn law_nothing_follows_a_document(d: Doc, gap: Seq<char>, space: Seq<char>, rest: Seq<char>)
    requires
        sound(d),
        !(d is Num),
        all_space(gap),
        all_space(space),
        rest.len() > 0,
        !all_space(seq![rest[0]]),
    ensures
        parsed(gap + written(d, gap) + space + rest) is None,
{
    let w = gap + written(d, gap);
    let whole = gap + written(d, gap) + space + rest;
    assert(whole =~= w + (space + rest));
    assert(whole.subrange(0, whole.len() as int) =~= whole);
    assert(stands_at(whole, 0, w + (space + rest)));
    lemma_stands_split(whole, 0, w, space + rest);
    lemma_stands_split(whole, w.len() as int, space, rest);
    lemma_stands_first(whole, (w.len() + space.len()) as int, rest);
    assert(!is_space(rest[0])) by {
        assert(seq![rest[0]][0] == rest[0]);
    }
    lemma_value(whole, 0, d, gap);
    lemma_gap(whole, w.len() as int, space);
}

/// A string that is read ends with a quote, an array with its bracket and an
/// object with its brace: what is cut off is not read.
pub proof fn law_what_is_read_is_whole(s: Seq<char>, at: int)
    requires
        0 <= at <= s.len(),
    ensures
        string_rest(s, at) matches Some((t, next)) ==> at < next <= s.len() && s[next - 1] == '"',
        items_at(s, at) matches Some((t, next)) ==> at < next <= s.len() && s[next - 1] == ']',
        fields_at(s, at) matches Some((t, next)) ==> at < next <= s.len() && s[next - 1] == '}',
    decreases s.len() - at,
{
    if at < s.len() {
        if s[at] == '\\' {
            if let Some((c, next)) = escape_at(s, at + 1) {
                if next <= s.len() {
                    law_what_is_read_is_whole(s, next);
                }
            }
        } else {
            law_what_is_read_is_whole(s, at + 1);
        }
    }
    if let Some((v, next)) = value_at(s, at) {
        if at < next <= s.len() {
            lemma_skip_space(s, next);
            let p = skip_space(s, next);
            if p < s.len() && s[p] == ',' {
                law_what_is_read_is_whole(s, p + 1);
            }
        }
    }
    lemma_skip_space(s, at);
    if let Some((key, after_key)) = string_at(s, skip_space(s, at)) {
        if at < after_key <= s.len() {
            lemma_skip_space(s, after_key);
            let colon = skip_space(s, after_key);
            if colon < s.len() && s[colon] == ':' {
                if let Some((v, next)) = value_at(s, colon + 1) {
                    if colon + 1 < next <= s.len() {
                        lemma_skip_space(s, next);
                        let p = skip_space(s, next);
                        if p < s.len() && s[p] == ',' {
                            law_what_is_read_is_whole(s, p + 1);
                        }
                    }
                }
            }
        }
    }
}

/// A hexadecimal digit of either case.
pub open spec fn is_hex(c: char, value: int) -> bool {
    0 <= value < 16 && (c == "0123456789abcdef"@[value] || c == "0123456789ABCDEF"@[value])
}

/// Four hexadecimal digits, the high one first.
pub open spec fn is_hex4(digits: Seq<char>, n: int) -> bool {
    &&& digits.len() == 4
    &&& 0 <= n < 65536
    &&& is_hex(digits[0], n / 4096)
    &&& is_hex(digits[1], n / 256 % 16)
    &&& is_hex(digits[2], n / 16 % 16)
    &&& is_hex(digits[3], n % 16)
}

proof fn lemma_hex(c: char, value: int)
    requires
        is_hex(c, value),
    ensures
        hex_value(c) == Some(value),
{
    reveal_strlit("0123456789abcdef");
    reveal_strlit("0123456789ABCDEF");
}

proof fn lemma_hex4(s: Seq<char>, at: int, digits: Seq<char>, n: int)
    requires
        0 <= at,
        stands_at(s, at, digits),
        is_hex4(digits, n),
    ensures
        hex4(s, at) == Some(n),
{
    let there = s.subrange(at, at + 4);
    assert(there[0] == s[at] && there[1] == s[at + 1] && there[2] == s[at + 2] && there[3] == s[at
        + 3]);
    lemma_hex(digits[0], n / 4096);
    lemma_hex(digits[1], n / 256 % 16);
    lemma_hex(digits[2], n / 16 % 16);
    lemma_hex(digits[3], n % 16);
}

/// `\u` and four digits, of either case, stand for the character of that number;
/// a number that no character has is no escape.
pub proof fn law_an_escaped_number_is_its_character(s: Seq<char>, at: int, digits: Seq<char>, n: int)
    requires
        0 <= at,
        stands_at(s, at, seq!['u'] + digits),
        is_hex4(digits, n),
        !(0xd800 <= n < 0xdc00),
    ensures
        n < 0xd800 || n > 0xdfff ==> escape_at(s, at) == Some((n as u32 as char, at + 5)),
        0xdc00 <= n <= 0xdfff ==> escape_at(s, at) is None,
{
    lemma_stands_split(s, at, seq!['u'], digits);
    lemma_stands_first(s, at, seq!['u']);
    lemma_hex4(s, at + 1, digits, n);
}

/// A character whose number takes more than four digits is escaped as two: with
/// 65536 taken off, its number is split into two of ten bits, the high one first.
pub proof fn law_an_escaped_pair_is_one_character(
    s: Seq<char>,
    at: int,
    first: Seq<char>,
    second: Seq<char>,
    n: int,
)
    requires
        0 <= at,
        0x10000 <= n <= 0x10ffff,
        is_hex4(first, 0xd800 + (n - 0x10000) / 1024),
        is_hex4(second, 0xdc00 + (n - 0x10000) % 1024),
        stands_at(s, at, seq!['u'] + first + seq!['\\', 'u'] + second),
    ensures
        escape_at(s, at) == Some((n as u32 as char, at + 11)),
{
    let rest = seq!['\\', 'u'] + second;
    assert(seq!['u'] + first + seq!['\\', 'u'] + second =~= seq!['u'] + (first + rest));
    lemma_stands_split(s, at, seq!['u'], first + rest);
    lemma_stands_first(s, at, seq!['u']);
    lemma_stands_split(s, at + 1, first, rest);
    lemma_stands_split(s, at + 5, seq!['\\', 'u'], second);
    let mark = s.subrange(at + 5, at + 7);
    assert(mark == seq!['\\', 'u']);
    assert(mark[0] == s[at + 5] && mark[1] == s[at + 6]);
    lemma_hex4(s, at + 1, first, 0xd800 + (n - 0x10000) / 1024);
    lemma_hex4(s, at + 7, second, 0xdc00 + (n - 0x10000) % 1024);
}

/// Half of a pair stands for the replacement character where no escape follows
/// it; one that is followed by the escape of anything but the other half is not
/// read.
pub proof fn law_half_a_pair(
    s: Seq<char>,
    at: int,
    first: Seq<char>,
    n: int,
    second: Seq<char>,
    m: int,
)
    requires
        0 <= at,
        0xd800 <= n < 0xdc00,
        is_hex4(first, n),
        stands_at(s, at, seq!['u'] + first),
    ensures
        !stands_at(s, at + 5, seq!['\\', 'u']) ==> escape_at(s, at) == Some(
            ('\u{fffd}', at + 5),
        ),
        stands_at(s, at + 5, seq!['\\', 'u'] + second) && is_hex4(second, m) && !(0xdc00 <= m
            <= 0xdfff) ==> escape_at(s, at) is None,
{
    lemma_stands_split(s, at, seq!['u'], first);
    lemma_stands_first(s, at, seq!['u']);
    lemma_hex4(s, at + 1, first, n);
    if at + 6 < s.len() && s[at + 5] == '\\' && s[at + 6] == 'u' {
        assert(s.subrange(at + 5, at + 7) =~= seq!['\\', 'u']);
    }
    if stands_at(s, at + 5, seq!['\\', 'u'] + second) && is_hex4(second, m) {
        lemma_stands_split(s, at + 5, seq!['\\', 'u'], second);
        let mark = s.subrange(at + 5, at + 7);
        assert(mark == seq!['\\', 'u']);
        assert(mark[0] == s[at + 5] && mark[1] == s[at + 6]);
        lemma_hex4(s, at + 7, second, m);
    }
}

/// The escapes of one letter.
pub proof fn law_what_a_backslash_means(s: Seq<char>, at: int)
    requires
        0 <= at < s.len(),
        s[at] != 'u',
    ensures
        escape_at(s, at) == (match s[at] {
            '"' => Some(('"', at + 1)),
            '\\' => Some(('\\', at + 1)),
            '/' => Some(('/', at + 1)),
            'b' => Some(('\u{8}', at + 1)),
            'f' => Some(('\u{c}', at + 1)),
            'n' => Some(('\n', at + 1)),
            'r' => Some(('\r', at + 1)),
            't' => Some(('\t', at + 1)),
            _ => None,
        }),
{
}

pub open spec fn digits_only(t: Seq<char>) -> bool {
    forall|i: int| 0 <= i < t.len() ==> '0' <= #[trigger] t[i] <= '9'
}

pub open spec fn is_sign(t: Seq<char>) -> bool {
    t =~= seq![] || t =~= seq!['-'] || t =~= seq!['+']
}

proof fn lemma_digits_run(t: Seq<char>, at: int, end: int)
    requires
        0 <= at <= end <= t.len(),
        forall|i: int| at <= i < end ==> is_digit(#[trigger] t[i]),
        end < t.len() ==> !is_digit(t[end]),
    ensures
        digits_end(t, at) == end,
    decreases end - at,
{
    if at < end {
        lemma_digits_run(t, at + 1, end);
    }
}

/// What numbers look like: a sign or none; digits, a point among them or at
/// either end or none; and then nothing, or the letter of an exponent, a sign or
/// none, and digits.
pub proof fn law_what_is_a_number(
    sign: Seq<char>,
    whole: Seq<char>,
    point: Seq<char>,
    part: Seq<char>,
    e: Seq<char>,
    exp_sign: Seq<char>,
    exp: Seq<char>,
)
    requires
        is_sign(sign),
        digits_only(whole),
        digits_only(part),
        point =~= seq!['.'] || (point =~= seq![] && part =~= seq![]),
        whole.len() + part.len() > 0,
        ((e =~= seq!['e'] || e =~= seq!['E']) && is_sign(exp_sign) && digits_only(exp) && exp.len()
            > 0) || (e =~= seq![] && exp_sign =~= seq![] && exp =~= seq![]),
    ensures
        is_number(sign + whole + point + part + e + exp_sign + exp),
{
    let t = sign + whole + point + part + e + exp_sign + exp;
    let a = sign.len() as int;
    let b = a + whole.len();
    let c = b + point.len();
    let d = c + part.len();
    assert forall|i: int| a <= i < b implies is_digit(#[trigger] t[i]) by {
        assert(t[i] == whole[i - a]);
    }
    assert forall|i: int| c <= i < d implies is_digit(#[trigger] t[i]) by {
        assert(t[i] == part[i - c]);
    }
    if point.len() > 0 {
        assert(t[b] == point[0]);
    }
    if e.len() > 0 {
        assert(t[d] == e[0]);
        assert(e[0] == 'e' || e[0] == 'E');
        if point.len() == 0 {
            assert(d == b);
        }
    } else {
        assert(t.len() == d);
    }
    if a > 0 {
        assert(t[0] == sign[0]);
    } else if whole.len() > 0 {
        assert(t[0] == whole[0]);
    } else {
        assert(t[0] == point[0]);
    }
    assert(after_sign(t, 0) == a);
    lemma_digits_run(t, a, b);
    if point.len() > 0 {
        lemma_digits_run(t, c, d);
    }
    if e.len() > 0 {
        let f = d + 1;
        let g = f + exp_sign.len();
        assert forall|i: int| g <= i < t.len() implies is_digit(#[trigger] t[i]) by {
            assert(t[i] == exp[i - g]);
        }
        if exp_sign.len() > 0 {
            assert(t[f] == exp_sign[0]);
        } else {
            assert(t[f] == exp[0]);
        }
        assert(after_sign(t, f) == g);
        lemma_digits_run(t, g, t.len() as int);
    }
}

proof fn lemma_field_from(fields: Seq<(Seq<char>, Doc)>, key: Seq<char>, i: int)
    requires
        0 <= i,
    ensures
        match field_from(fields, key, i) {
            Some(v) => exists|k: int|
                i <= k < fields.len() && (#[trigger] fields[k]) == (key, v) && forall|j: int|
                    i <= j < k ==> (#[trigger] fields[j]).0 != key,
            None => forall|j: int| i <= j < fields.len() ==> (#[trigger] fields[j]).0 != key,
        },
    decreases fields.len() - i,
{
    if i < fields.len() && fields[i].0 != key {
        lemma_field_from(fields, key, i + 1);
        if let Some(v) = field_from(fields, key, i + 1) {
            let k = choose|k: int|
                i + 1 <= k < fields.len() && (#[trigger] fields[k]) == (key, v) && forall|j: int|
                    i + 1 <= j < k ==> (#[trigger] fields[j]).0 != key;
            assert(fields[k] == (key, v));
        }
    } else if i < fields.len() {
        assert(fields[i] == (key, fields[i].1));
    }
}

/// A field of an object is the first of its name; there is none where no field
/// has that name, and none in anything but an object.
pub proof fn law_the_first_field_of_a_name(d: Doc, key: Seq<char>, k: int)
    ensures
        !(d is Obj) ==> field(d, key) is None,
        d matches Doc::Obj(fields) ==> {
            &&& 0 <= k < fields.len() && fields[k].0 == key && (forall|j: int|
                0 <= j < k ==> (#[trigger] fields[j]).0 != key) ==> field(d, key) == Some(
                fields[k].1,
            )
            &&& (forall|j: int| 0 <= j < fields.len() ==> (#[trigger] fields[j]).0 != key) ==> field(
                d,
                key,
            ) is None
        },
{
    if let Doc::Obj(fields) = d {
        lemma_field_from(fields, key, 0);
    }
}

/// What holds no character that needs an escape stands between quotes as it is.
pub proof fn lemma_plain_quoted(s: Seq<char>)
    requires
        forall|i: int|
            0 <= i < s.len() ==> (#[trigger] s[i]) as u32 >= 0x20 && s[i] != '"' && s[i] != '\\',
    ensures
        quoted(s) == seq!['"'] + s + seq!['"'],
{
    lemma_plain_escaped(s);
}

proof fn lemma_plain_escaped(s: Seq<char>)
    requires
        forall|i: int|
            0 <= i < s.len() ==> (#[trigger] s[i]) as u32 >= 0x20 && s[i] != '"' && s[i] != '\\',
    ensures
        escaped(s) == s,
    decreases s.len(),
{
    if s.len() > 0 {
        let rest = s.drop_first();
        assert forall|i: int| 0 <= i < rest.len() implies (#[trigger] rest[i]) as u32 >= 0x20
            && rest[i] != '"' && rest[i] != '\\' by {
            assert(rest[i] == s[i + 1]);
        }
        lemma_plain_escaped(rest);
        assert(s[0] as u32 >= 0x20);
        assert(escaped_char(s[0]) =~= seq![s[0]]);
        assert(seq![s[0]] + rest =~= s);
    } else {
        assert(escaped(s) =~= s);
    }
}

/// Any whole number, written in decimal, is a number.
pub proof fn law_a_decimal_is_a_number(n: nat)
    ensures
        is_number(decimal(n)),
{
    lemma_decimal(n);
    let none = Seq::<char>::empty();
    let t = decimal(n);
    law_what_is_a_number(none, t, none, none, none, none, none);
    assert(none + t + none + none + none + none + none =~= t);
}

/// Without white space, a field is its name, a colon and its value.
pub proof fn lemma_bare_field(d: Doc, k: int)
    requires
        d is Obj,
        0 <= k < d->Obj_0.len(),
    ensures
        ({
            let none = Seq::<char>::empty();
            let (name, v) = d->Obj_0[k];
            fields_written(d, k, none) == quoted(name) + seq![':'] + written(v, none) + (if k + 1
                < d->Obj_0.len() {
                seq![','] + fields_written(d, k + 1, none)
            } else {
                none
            })
        }),
{
    let none = Seq::<char>::empty();
    let (name, v) = d->Obj_0[k];
    let q = quoted(name);
    let w = written(v, none);
    let first = none + q + none + (seq![':'] + (none + w + none));
    assert(first =~= q + seq![':'] + w);
    assert(fields_written(d, k, none) == (if k + 1 < d->Obj_0.len() {
        first + (seq![','] + fields_written(d, k + 1, none))
    } else {
        first
    }));
    assert(first + none =~= first);
}

/// An object without white space reads back.
pub proof fn lemma_bare_object(fields: Seq<(Seq<char>, Doc)>)
    requires
        fields.len() > 0,
        forall|i: int| 0 <= i < fields.len() ==> sound((#[trigger] fields[i]).1),
    ensures
        parsed(
            seq!['{'] + fields_written(Doc::Obj(fields), 0, Seq::<char>::empty()) + seq!['}'],
        ) == Some(Doc::Obj(fields)),
{
    let none = Seq::<char>::empty();
    let d = Doc::Obj(fields);
    let inner = fields_written(d, 0, none);
    assert(none + written(d, none) + none =~= seq!['{'] + inner + seq!['}']);
    law_a_document_reads_back(d, none);
}

/// Where the parts of a number lie: its sign up to `a`, digits up to `b`, a point
/// up to `c`, digits up to `d`; and behind that nothing, or the letter of an
/// exponent, a sign up to `e`, and digits.
pub open spec fn parts_at(t: Seq<char>, a: int, b: int, c: int, d: int, e: int) -> bool {
    &&& 0 <= a <= b <= c <= d <= t.len()
    &&& a == 0 || (a == 1 && (t[0] == '-' || t[0] == '+'))
    &&& forall|i: int| a <= i < b ==> '0' <= #[trigger] t[i] <= '9'
    &&& (c == b && d == b) || (c == b + 1 && t[b] == '.')
    &&& forall|i: int| c <= i < d ==> '0' <= #[trigger] t[i] <= '9'
    &&& (b - a) + (d - c) > 0
    &&& d == t.len() || {
        &&& t[d] == 'e' || t[d] == 'E'
        &&& e == d + 1 || (e == d + 2 && (t[d + 1] == '-' || t[d + 1] == '+'))
        &&& e < t.len()
        &&& forall|i: int| e <= i < t.len() ==> '0' <= #[trigger] t[i] <= '9'
    }
}

/// Nothing is a number but what has the parts of one.
pub proof fn law_nothing_else_is_a_number(t: Seq<char>)
    ensures
        is_number(t) ==> exists|a: int, b: int, c: int, d: int, e: int|
            #[trigger] parts_at(t, a, b, c, d, e),
{
    if is_number(t) {
        let a = after_sign(t, 0);
        lemma_digits_end(t, a);
        let b = digits_end(t, a);
        let (c, d) = if b < t.len() && t[b] == '.' {
            lemma_digits_end(t, b + 1);
            (b + 1, digits_end(t, b + 1))
        } else {
            (b, b)
        };
        let e = after_sign(t, d + 1);
        if d < t.len() {
            lemma_digits_end(t, e);
        }
        assert(parts_at(t, a, b, c, d, e));
    }
}

/// In a string, any character but a quote and a backslash stands for itself.
pub proof fn law_other_characters_stand_for_themselves(s: Seq<char>, at: int)
    requires
        0 <= at < s.len(),
        s[at] != '"',
        s[at] != '\\',
    ensures
        string_rest(s, at) == (match string_rest(s, at + 1) {
            Some((rest, next)) => Some((seq![s[at]] + rest, next)),
            None => None,
        }),
{
}

} // verus!
