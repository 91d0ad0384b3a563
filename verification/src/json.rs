//! Just enough JSON for the debugging protocol.
//!
//! The protocol needs to read a handful of fields out of replies and to write
//! one string into a request.  Reading is total: anything malformed is `None`,
//! and a field that is missing or of the wrong shape reads as absent.
use vstd::prelude::*;
use vstd::slice::slice_subrange;
use vstd::utf8::is_scalar;
use crate::text::{chars_at, chars_of, digits_end, is_digit, same_text, skip_digits, string_of};

verus! {

/// A JSON value.  A number is kept as it was written.
#[derive(Debug, PartialEq)]
pub enum Json {
    Null,
    Bool(bool),
    Num(String),
    Str(String),
    Arr(Vec<Json>),
    Obj(Vec<(String, Json)>),
}

/// A JSON value as contracts speak of it.
pub enum Doc {
    Null,
    Bool(bool),
    Num(Seq<char>),
    Str(Seq<char>),
    Arr(Seq<Doc>),
    Obj(Seq<(Seq<char>, Doc)>),
}

/// What a value holds.
pub open spec fn doc(j: Json) -> Doc
    decreases j,
{
    match j {
        Json::Null => Doc::Null,
        Json::Bool(b) => Doc::Bool(b),
        Json::Num(n) => Doc::Num(n@),
        Json::Str(s) => Doc::Str(s@),
        Json::Arr(items) => Doc::Arr(
            Seq::new(
                items@.len(),
                |i: int|
                    if 0 <= i < items@.len() {
                        doc(items@[i])
                    } else {
                        Doc::Null
                    },
            ),
        ),
        Json::Obj(fields) => Doc::Obj(
            Seq::new(
                fields@.len(),
                |i: int|
                    if 0 <= i < fields@.len() {
                        (fields@[i].0@, doc(fields@[i].1))
                    } else {
                        (seq![], Doc::Null)
                    },
            ),
        ),
    }
}

/// `char::from_u32`: the character of that number where there is one, which is
/// for every Unicode scalar value, and nothing for any other number.
pub assume_specification[ char::from_u32 ](i: u32) -> (c: Option<char>)
    ensures
        match c {
            Some(ch) => is_scalar(i) && ch as u32 == i,
            None => !is_scalar(i),
        },
;

pub open spec fn field_from(fields: Seq<(Seq<char>, Doc)>, key: Seq<char>, i: int) -> Option<Doc>
    decreases fields.len() - i,
{
    if i < 0 || i >= fields.len() {
        None
    } else if fields[i].0 == key {
        Some(fields[i].1)
    } else {
        field_from(fields, key, i + 1)
    }
}

/// A field of an object, the first of that name, and nothing of anything else.
pub open spec fn field(d: Doc, key: Seq<char>) -> Option<Doc> {
    match d {
        Doc::Obj(fields) => field_from(fields, key, 0),
        _ => None,
    }
}

impl Json {
    /// A field of an object, or None for anything else.
    pub fn get(&self, key: &str) -> (found: Option<&Json>)
        ensures
            match found {
                Some(j) => field(doc(*self), key@) == Some(doc(*j)),
                None => field(doc(*self), key@) is None,
            },
    {
        match self {
            Json::Obj(fields) => {
                let ghost seen = match doc(*self) {
                    Doc::Obj(fs) => fs,
                    _ => seq![],
                };
                let mut i: usize = 0;
                while i < fields.len()
                    invariant
                        i <= fields@.len(),
                        doc(*self) == Doc::Obj(seen),
                        seen.len() == fields@.len(),
                        forall|k: int|
                            0 <= k < seen.len() ==> #[trigger] seen[k] == (
                                fields@[k].0@,
                                doc(fields@[k].1),
                            ),
                        field(doc(*self), key@) == field_from(seen, key@, i as int),
                    decreases fields@.len() - i,
                {
                    proof {
                        assert(seen[i as int] == (fields@[i as int].0@, doc(fields@[i as int].1)));
                    }
                    if same_text(fields[i].0.as_str(), key) {
                        return Some(&fields[i].1);
                    }
                    i = i + 1;
                }
                None
            },
            _ => None,
        }
    }

    pub fn str(&self) -> (s: Option<&str>)
        ensures
            match s {
                Some(t) => doc(*self) == Doc::Str(t@),
                None => !(doc(*self) is Str),
            },
    {
        match self {
            Json::Str(s) => Some(s.as_str()),
            _ => None,
        }
    }

    /// A string field, empty when it is missing or is not a string.
    pub fn text(&self, key: &str) -> (s: &str)
        ensures
            s@ == match field(doc(*self), key@) {
                Some(Doc::Str(t)) => t,
                _ => seq![],
            },
    {
        proof {
            reveal_strlit("");
        }
        let found = match self.get(key) {
            Some(j) => j.str(),
            None => None,
        };
        match found {
            Some(t) => t,
            None => {
                proof {
                    assert(""@ =~= seq![]);
                }
                ""
            },
        }
    }

    /// The elements of an array field, empty when there is no such array.
    pub fn list(&self, key: &str) -> (items: &[Json])
        ensures
            docs(items@) == match field(doc(*self), key@) {
                Some(Doc::Arr(ds)) => ds,
                _ => seq![],
            },
    {
        match self.get(key) {
            Some(Json::Arr(items)) => {
                proof {
                    assert(docs(items@) =~= doc(Json::Arr(*items))->Arr_0);
                }
                items.as_slice()
            },
            _ => {
                let none: &[Json] = &[];
                proof {
                    assert(docs(none@) =~= seq![]);
                }
                none
            },
        }
    }

    pub fn is_true(&self, key: &str) -> (yes: bool)
        ensures
            yes == (field(doc(*self), key@) == Some(Doc::Bool(true))),
    {
        match self.get(key) {
            Some(Json::Bool(b)) => *b,
            _ => false,
        }
    }

    /// A number field, as it was written.
    pub fn num(&self, key: &str) -> (n: Option<&str>)
        ensures
            match n {
                Some(t) => field(doc(*self), key@) == Some(Doc::Num(t@)),
                None => !(field(doc(*self), key@) matches Some(Doc::Num(_))),
            },
    {
        match self.get(key) {
            Some(Json::Num(n)) => Some(n.as_str()),
            _ => None,
        }
    }
}

pub open spec fn docs(items: Seq<Json>) -> Seq<Doc> {
    Seq::new(items.len(), |i: int| doc(items[i]))
}

pub open spec fn docs_of_fields(fields: Seq<(String, Json)>) -> Seq<(Seq<char>, Doc)> {
    Seq::new(fields.len(), |i: int| (fields[i].0@, doc(fields[i].1)))
}

/// A lowercase hexadecimal digit.
pub open spec fn hex_digit(d: int) -> char {
    if d < 10 {
        (48 + d) as u8 as char
    } else {
        (87 + d) as u8 as char
    }
}

/// How a character stands in a string literal.
pub open spec fn escaped_char(c: char) -> Seq<char> {
    if c == '"' {
        seq!['\\', '"']
    } else if c == '\\' {
        seq!['\\', '\\']
    } else if c == '\n' {
        seq!['\\', 'n']
    } else if c == '\r' {
        seq!['\\', 'r']
    } else if c == '\t' {
        seq!['\\', 't']
    } else if (c as u32) < 0x20 {
        seq!['\\', 'u', '0', '0', hex_digit((c as u32) as int / 16), hex_digit((c as u32) as int % 16)]
    } else {
        seq![c]
    }
}

pub open spec fn escaped(s: Seq<char>) -> Seq<char>
    decreases s.len(),
{
    if s.len() == 0 {
        seq![]
    } else {
        escaped_char(s[0]) + escaped(s.drop_first())
    }
}

/// A text as a JSON string literal.
pub open spec fn quoted(s: Seq<char>) -> Seq<char> {
    seq!['"'] + escaped(s) + seq!['"']
}

proof fn lemma_escaped_push(s: Seq<char>, c: char)
    ensures
        escaped(s.push(c)) == escaped(s) + escaped_char(c),
    decreases s.len(),
{
    if s.len() == 0 {
        assert(s.push(c).drop_first() =~= s);
        assert(s.push(c)[0] == c);
        assert(escaped(s) == Seq::<char>::empty());
        assert(escaped(s.push(c)) =~= escaped(s) + escaped_char(c));
    } else {
        lemma_escaped_push(s.drop_first(), c);
        assert(s.push(c).drop_first() =~= s.drop_first().push(c));
        assert(escaped(s.push(c)) =~= escaped(s) + escaped_char(c));
    }
}

/// A lowercase hexadecimal digit.
pub fn hex_char(d: u32) -> (c: char)
    requires
        d < 16,
    ensures
        c == hex_digit(d as int),
{
    if d < 10 {
        (48 + d as u8) as char
    } else {
        (87 + d as u8) as char
    }
}

/// Render a text as a JSON string literal, escapes and all.
pub fn quote(s: &str) -> (out: String)
    ensures
        out@ == quoted(s@),
{
    let mut out = String::new();
    out.push('"');
    proof {
        assert(out@ =~= seq!['"'] + escaped(s@.subrange(0, 0)));
    }
    for c in it: s.chars()
        invariant
            it.seq() == s@,
            out@ == seq!['"'] + escaped(s@.subrange(0, it.index())),
    {
        let ghost before = out@;
        if c == '"' {
            out.push('\\');
            out.push('"');
        } else if c == '\\' {
            out.push('\\');
            out.push('\\');
        } else if c == '\n' {
            out.push('\\');
            out.push('n');
        } else if c == '\r' {
            out.push('\\');
            out.push('r');
        } else if c == '\t' {
            out.push('\\');
            out.push('t');
        } else if (c as u32) < 0x20 {
            out.push('\\');
            out.push('u');
            out.push('0');
            out.push('0');
            out.push(hex_char(c as u32 / 16));
            out.push(hex_char(c as u32 % 16));
        } else {
            out.push(c);
        }
        proof {
            assert(out@ =~= before + escaped_char(c));
            assert(s@.subrange(0, it.index() + 1) =~= s@.subrange(0, it.index()).push(c));
            lemma_escaped_push(s@.subrange(0, it.index()), c);
            assert(out@ =~= seq!['"'] + escaped(s@.subrange(0, it.index() + 1)));
        }
    }
    out.push('"');
    proof {
        assert(s@.subrange(0, s@.len() as int) =~= s@);
        assert(out@ =~= quoted(s@));
    }
    out
}

pub open spec fn is_space(c: char) -> bool {
    c == ' ' || c == '\t' || c == '\n' || c == '\r'
}

/// The first place at or after `at` that is no white space.
pub open spec fn skip_space(s: Seq<char>, at: int) -> int
    decreases s.len() - at,
{
    if 0 <= at < s.len() && is_space(s[at]) {
        skip_space(s, at + 1)
    } else {
        at
    }
}

pub proof fn lemma_skip_space(s: Seq<char>, at: int)
    requires
        0 <= at <= s.len(),
    ensures
        at <= skip_space(s, at) <= s.len(),
        skip_space(s, at) < s.len() ==> !is_space(s[skip_space(s, at)]),
    decreases s.len() - at,
{
    if at < s.len() && is_space(s[at]) {
        lemma_skip_space(s, at + 1);
    }
}

/// Whether `word` stands at `at`.
pub open spec fn stands_at(s: Seq<char>, at: int, word: Seq<char>) -> bool {
    at + word.len() <= s.len() && s.subrange(at, at + word.len()) == word
}

/// The value of a hexadecimal digit of either case.
pub open spec fn hex_value(c: char) -> Option<int> {
    if '0' <= c <= '9' {
        Some(c as int - 48)
    } else if 'a' <= c <= 'f' {
        Some(c as int - 87)
    } else if 'A' <= c <= 'F' {
        Some(c as int - 55)
    } else {
        None
    }
}

/// The number that four hexadecimal digits at `at` stand for.
pub open spec fn hex4(s: Seq<char>, at: int) -> Option<int> {
    if at < 0 || at + 4 > s.len() {
        None
    } else {
        match (
            hex_value(s[at]),
            hex_value(s[at + 1]),
            hex_value(s[at + 2]),
            hex_value(s[at + 3]),
        ) {
            (Some(a), Some(b), Some(c), Some(d)) => Some(a * 4096 + b * 256 + c * 16 + d),
            _ => None,
        }
    }
}

/// The character of a number, where there is one.
pub open spec fn char_of(n: int) -> Option<char> {
    if 0 <= n <= 0x10ffff && !(0xd800 <= n <= 0xdfff) {
        Some(n as u32 as char)
    } else {
        None
    }
}

/// What follows `\u`: the character, and the place behind it.  The first half
/// of a surrogate pair is joined with the second where another escape follows,
/// which then has to be one, and stands for the replacement character where
/// none does.
pub open spec fn unicode_at(s: Seq<char>, at: int) -> Option<(char, int)> {
    match hex4(s, at) {
        None => None,
        Some(first) => if 0xd800 <= first < 0xdc00 {
            if at + 5 < s.len() && s[at + 4] == '\\' && s[at + 5] == 'u' {
                match hex4(s, at + 6) {
                    Some(second) => if 0xdc00 <= second <= 0xdfff {
                        match char_of(0x10000 + (first - 0xd800) * 1024 + (second - 0xdc00)) {
                            Some(c) => Some((c, at + 10)),
                            None => None,
                        }
                    } else {
                        None
                    },
                    None => None,
                }
            } else {
                Some(('\u{fffd}', at + 4))
            }
        } else {
            match char_of(first) {
                Some(c) => Some((c, at + 4)),
                None => None,
            }
        },
    }
}

/// What follows a backslash: the character, and the place behind it.
pub open spec fn escape_at(s: Seq<char>, at: int) -> Option<(char, int)> {
    if at >= s.len() {
        None
    } else if s[at] == '"' || s[at] == '\\' || s[at] == '/' {
        Some((s[at], at + 1))
    } else if s[at] == 'b' {
        Some(('\u{8}', at + 1))
    } else if s[at] == 'f' {
        Some(('\u{c}', at + 1))
    } else if s[at] == 'n' {
        Some(('\n', at + 1))
    } else if s[at] == 'r' {
        Some(('\r', at + 1))
    } else if s[at] == 't' {
        Some(('\t', at + 1))
    } else if s[at] == 'u' {
        unicode_at(s, at + 1)
    } else {
        None
    }
}

/// The rest of a string literal: what it holds up to the closing quote, and
/// the place behind that.
pub open spec fn string_rest(s: Seq<char>, at: int) -> Option<(Seq<char>, int)>
    decreases s.len() - at,
{
    if at < 0 || at >= s.len() {
        None
    } else if s[at] == '"' {
        Some((seq![], at + 1))
    } else if s[at] == '\\' {
        match escape_at(s, at + 1) {
            None => None,
            Some((c, next)) => led_by(seq![c], string_rest(s, next)),
        }
    } else {
        led_by(seq![s[at]], string_rest(s, at + 1))
    }
}

pub open spec fn led_by<T>(head: Seq<T>, rest: Option<(Seq<T>, int)>) -> Option<(Seq<T>, int)> {
    match rest {
        None => None,
        Some((tail, next)) => Some((head + tail, next)),
    }
}

/// A string literal that begins at `at`.
pub open spec fn string_at(s: Seq<char>, at: int) -> Option<(Seq<char>, int)> {
    if at < s.len() && s[at] == '"' {
        string_rest(s, at + 1)
    } else {
        None
    }
}

/// The characters that a number is written with.
pub open spec fn in_number(c: char) -> bool {
    is_digit(c) || c == '-' || c == '+' || c == '.' || c == 'e' || c == 'E'
}

pub open spec fn number_end(s: Seq<char>, at: int) -> int
    decreases s.len() - at,
{
    if 0 <= at < s.len() && in_number(s[at]) {
        number_end(s, at + 1)
    } else {
        at
    }
}

pub open spec fn after_sign(t: Seq<char>, at: int) -> int {
    if at < t.len() && (t[at] == '-' || t[at] == '+') {
        at + 1
    } else {
        at
    }
}

/// Whether a text is a decimal number: a sign or none, digits with a point
/// among, before or behind them or none, and an exponent or none.
pub open spec fn is_number(t: Seq<char>) -> bool {
    let whole = after_sign(t, 0);
    let point = digits_end(t, whole);
    let (digits, end) = if point < t.len() && t[point] == '.' {
        let frac = digits_end(t, point + 1);
        ((point - whole) + (frac - point - 1), frac)
    } else {
        (point - whole, point)
    };
    digits > 0 && (end == t.len() || ((t[end] == 'e' || t[end] == 'E') && {
        let exp = after_sign(t, end + 1);
        exp < t.len() && digits_end(t, exp) == t.len()
    }))
}

pub open spec fn number_at(s: Seq<char>, at: int) -> Option<(Doc, int)> {
    let end = number_end(s, at);
    let t = s.subrange(at, end);
    if is_number(t) {
        Some((Doc::Num(t), end))
    } else {
        None
    }
}

/// A value at `at` or behind white space there, and the place behind it.
pub open spec fn value_at(s: Seq<char>, at: int) -> Option<(Doc, int)>
    decreases s.len() - at, 0int,
    when 0 <= at <= s.len()
{
    proof {
        lemma_skip_space(s, at);
    }
    let p = skip_space(s, at);
    if p >= s.len() {
        None
    } else if s[p] == '{' {
        let q = skip_space(s, p + 1);
        if q < s.len() && s[q] == '}' {
            Some((Doc::Obj(seq![]), q + 1))
        } else {
            match fields_at(s, p + 1) {
                Some((fields, next)) => Some((Doc::Obj(fields), next)),
                None => None,
            }
        }
    } else if s[p] == '[' {
        let q = skip_space(s, p + 1);
        if q < s.len() && s[q] == ']' {
            Some((Doc::Arr(seq![]), q + 1))
        } else {
            match items_at(s, p + 1) {
                Some((items, next)) => Some((Doc::Arr(items), next)),
                None => None,
            }
        }
    } else if s[p] == '"' {
        match string_at(s, p) {
            Some((t, next)) => Some((Doc::Str(t), next)),
            None => None,
        }
    } else if s[p] == 't' {
        if stands_at(s, p, "true"@) {
            Some((Doc::Bool(true), p + 4))
        } else {
            None
        }
    } else if s[p] == 'f' {
        if stands_at(s, p, "false"@) {
            Some((Doc::Bool(false), p + 5))
        } else {
            None
        }
    } else if s[p] == 'n' {
        if stands_at(s, p, "null"@) {
            Some((Doc::Null, p + 4))
        } else {
            None
        }
    } else {
        number_at(s, p)
    }
}

/// The values of an array from `at` on, up to its closing bracket, and the
/// place behind that.  A value always takes up some of the text; that is said
/// once more so that the reading is seen to end.
pub open spec fn items_at(s: Seq<char>, at: int) -> Option<(Seq<Doc>, int)>
    decreases s.len() - at, 1int,
    when 0 <= at <= s.len()
{
    match value_at(s, at) {
        Some((v, next)) if at < next <= s.len() => {
            proof {
                lemma_skip_space(s, next);
            }
            let p = skip_space(s, next);
            if p < s.len() && s[p] == ',' {
                led_by(seq![v], items_at(s, p + 1))
            } else if p < s.len() && s[p] == ']' {
                Some((seq![v], p + 1))
            } else {
                None
            }
        },
        _ => None,
    }
}

/// The fields of an object from `at` on, up to its closing brace, and the
/// place behind that.
pub open spec fn fields_at(s: Seq<char>, at: int) -> Option<(Seq<(Seq<char>, Doc)>, int)>
    decreases s.len() - at, 1int,
    when 0 <= at <= s.len()
{
    proof {
        lemma_skip_space(s, at);
    }
    match string_at(s, skip_space(s, at)) {
        Some((key, after_key)) if at < after_key <= s.len() => {
            proof {
                lemma_skip_space(s, after_key);
            }
            let colon = skip_space(s, after_key);
            if colon < s.len() && s[colon] == ':' {
                match value_at(s, colon + 1) {
                    Some((v, next)) if colon + 1 < next <= s.len() => {
                        proof {
                            lemma_skip_space(s, next);
                        }
                        let p = skip_space(s, next);
                        if p < s.len() && s[p] == ',' {
                            led_by(seq![(key, v)], fields_at(s, p + 1))
                        } else if p < s.len() && s[p] == '}' {
                            Some((seq![(key, v)], p + 1))
                        } else {
                            None
                        }
                    },
                    _ => None,
                }
            } else {
                None
            }
        },
        _ => None,
    }
}

/// The document that a text is: one value with nothing but white space around
/// it.  Reading half of a text would be worse than reading none.
pub open spec fn parsed(s: Seq<char>) -> Option<Doc> {
    match value_at(s, 0) {
        Some((d, next)) => if skip_space(s, next) == s.len() {
            Some(d)
        } else {
            None
        },
        None => None,
    }
}

fn skip(s: &[char], at: usize) -> (p: usize)
    requires
        at <= s@.len(),
    ensures
        p as int == skip_space(s@, at as int),
        at <= p <= s@.len(),
{
    let mut i: usize = at;
    while i < s.len() && (s[i] == ' ' || s[i] == '\t' || s[i] == '\n' || s[i] == '\r')
        invariant
            at <= i <= s@.len(),
            skip_space(s@, at as int) == skip_space(s@, i as int),
        decreases s@.len() - i,
    {
        i = i + 1;
    }
    i
}

fn literal(s: &[char], at: usize, word: &str) -> (yes: bool)
    requires
        at <= s@.len(),
    ensures
        yes == stands_at(s@, at as int, word@),
{
    let w = chars_of(word);
    chars_at(s, at, w.as_slice())
}

fn hex_digit_value(c: char) -> (d: Option<u32>)
    ensures
        match d {
            Some(v) => hex_value(c) == Some(v as int) && v < 16,
            None => hex_value(c) is None,
        },
{
    if '0' <= c && c <= '9' {
        Some(c as u32 - 48)
    } else if 'a' <= c && c <= 'f' {
        Some(c as u32 - 87)
    } else if 'A' <= c && c <= 'F' {
        Some(c as u32 - 55)
    } else {
        None
    }
}

fn hex(s: &[char], at: usize) -> (n: Option<u32>)
    ensures
        match n {
            Some(v) => hex4(s@, at as int) == Some(v as int) && v < 0x10000 && at + 4 <= s@.len(),
            None => hex4(s@, at as int) is None,
        },
{
    let n: usize = s.len();
    if at > n || n - at < 4 {
        return None;
    }
    match (
        hex_digit_value(s[at]),
        hex_digit_value(s[at + 1]),
        hex_digit_value(s[at + 2]),
        hex_digit_value(s[at + 3]),
    ) {
        (Some(a), Some(b), Some(c), Some(d)) => Some(a * 4096 + b * 256 + c * 16 + d),
        _ => None,
    }
}

fn to_char(n: u32) -> (c: Option<char>)
    ensures
        c == char_of(n as int),
{
    let c = char::from_u32(n);
    proof {
        if let Some(ch) = c {
            vstd::utf8::char_u32_cast(ch, n);
        }
    }
    c
}

/// What follows `\u` at `at`: the character, and the place behind it.
pub fn unicode(s: &[char], at: usize) -> (found: Option<(char, usize)>)
    ensures
        match found {
            Some((c, next)) => unicode_at(s@, at as int) == Some((c, next as int)) && at < next
                <= s@.len(),
            None => unicode_at(s@, at as int) is None,
        },
{
    let n: usize = s.len();
    let first: u32 = match hex(s, at) {
        Some(n) => n,
        None => return None,
    };
    let behind: usize = at + 4;
    if 0xd800 <= first && first < 0xdc00 {
        if n - behind >= 2 && s[behind] == '\\' && s[behind + 1] == 'u' {
            let second: u32 = match hex(s, behind + 2) {
                Some(n) => n,
                None => return None,
            };
            if second < 0xdc00 || second > 0xdfff {
                return None;
            }
            return match to_char(0x10000 + (first - 0xd800) * 1024 + (second - 0xdc00)) {
                Some(c) => Some((c, behind + 6)),
                None => None,
            };
        }
        return Some(('\u{fffd}', behind));
    }
    match to_char(first) {
        Some(c) => Some((c, behind)),
        None => None,
    }
}

fn escape(s: &[char], at: usize) -> (found: Option<(char, usize)>)
    requires
        at <= s@.len(),
    ensures
        match found {
            Some((c, next)) => escape_at(s@, at as int) == Some((c, next as int)) && at < next
                <= s@.len(),
            None => escape_at(s@, at as int) is None,
        },
{
    if at >= s.len() {
        return None;
    }
    let e = s[at];
    if e == '"' || e == '\\' || e == '/' {
        Some((e, at + 1))
    } else if e == 'b' {
        Some(('\u{8}', at + 1))
    } else if e == 'f' {
        Some(('\u{c}', at + 1))
    } else if e == 'n' {
        Some(('\n', at + 1))
    } else if e == 'r' {
        Some(('\r', at + 1))
    } else if e == 't' {
        Some(('\t', at + 1))
    } else if e == 'u' {
        unicode(s, at + 1)
    } else {
        None
    }
}

/// A string literal that begins at `at`, and the place behind it.
pub fn string(s: &[char], at: usize) -> (found: Option<(String, usize)>)
    ensures
        match found {
            Some((t, next)) => string_at(s@, at as int) == Some((t@, next as int)) && at < next
                <= s@.len(),
            None => string_at(s@, at as int) is None,
        },
{
    if at >= s.len() || s[at] != '"' {
        return None;
    }
    let mut out = String::new();
    let mut i: usize = at + 1;
    proof {
        lemma_led_by_nothing(string_rest(s@, i as int));
        assert(out@ =~= seq![]);
    }
    while i < s.len()
        invariant
            at < i <= s@.len(),
            string_at(s@, at as int) == led_by(out@, string_rest(s@, i as int)),
        decreases s@.len() - i,
    {
        let c = s[i];
        let ghost before = out@;
        if c == '"' {
            proof {
                assert(out@ + seq![] =~= out@);
            }
            return Some((out, i + 1));
        }
        if c == '\\' {
            match escape(s, i + 1) {
                Some((e, next)) => {
                    proof {
                        lemma_led_by_twice(before, seq![e], string_rest(s@, next as int));
                        assert(before + seq![e] =~= before.push(e));
                    }
                    out.push(e);
                    i = next;
                },
                None => return None,
            }
        } else {
            proof {
                lemma_led_by_twice(before, seq![c], string_rest(s@, i + 1));
                assert(before + seq![c] =~= before.push(c));
            }
            out.push(c);
            i = i + 1;
        }
    }
    None
}

proof fn lemma_led_by_nothing<T>(rest: Option<(Seq<T>, int)>)
    ensures
        led_by(seq![], rest) == rest,
{
    if let Some((tail, next)) = rest {
        assert(seq![] + tail =~= tail);
    }
}

proof fn lemma_led_by_twice<T>(a: Seq<T>, b: Seq<T>, rest: Option<(Seq<T>, int)>)
    ensures
        led_by(a, led_by(b, rest)) == led_by(a + b, rest),
{
    if let Some((tail, next)) = rest {
        assert(a + (b + tail) =~= (a + b) + tail);
    }
}

fn sign_behind(t: &[char], at: usize) -> (p: usize)
    requires
        at <= t@.len(),
    ensures
        p as int == after_sign(t@, at as int),
        at <= p <= t@.len(),
{
    if at < t.len() && (t[at] == '-' || t[at] == '+') {
        at + 1
    } else {
        at
    }
}

/// Whether a text is a decimal number.
pub fn number_text(t: &[char]) -> (yes: bool)
    ensures
        yes == is_number(t@),
{
    let whole: usize = sign_behind(t, 0);
    let point: usize = skip_digits(t, whole);
    let mut digits: usize = point - whole;
    let mut end: usize = point;
    if point < t.len() && t[point] == '.' {
        end = skip_digits(t, point + 1);
        digits = digits + (end - point - 1);
    }
    if digits == 0 {
        return false;
    }
    if end == t.len() {
        return true;
    }
    if t[end] != 'e' && t[end] != 'E' {
        return false;
    }
    let exp: usize = sign_behind(t, end + 1);
    exp < t.len() && skip_digits(t, exp) == t.len()
}

fn number(s: &[char], at: usize) -> (found: Option<(Json, usize)>)
    requires
        at <= s@.len(),
    ensures
        match found {
            Some((j, next)) => number_at(s@, at as int) == Some((doc(j), next as int)) && at < next
                <= s@.len(),
            None => number_at(s@, at as int) is None,
        },
{
    let mut end: usize = at;
    while end < s.len() && (('0' <= s[end] && s[end] <= '9') || s[end] == '-' || s[end] == '+'
        || s[end] == '.' || s[end] == 'e' || s[end] == 'E')
        invariant
            at <= end <= s@.len(),
            number_end(s@, at as int) == number_end(s@, end as int),
        decreases s@.len() - end,
    {
        end = end + 1;
    }
    let t = slice_subrange(s, at, end);
    if number_text(t) {
        proof {
            if at == end {
                assert(t@ =~= seq![]);
            }
        }
        Some((Json::Num(string_of(s, at, end)), end))
    } else {
        None
    }
}

fn value(s: &[char], at: usize) -> (found: Option<(Json, usize)>)
    requires
        at <= s@.len(),
    ensures
        match found {
            Some((j, next)) => value_at(s@, at as int) == Some((doc(j), next as int)) && at < next
                <= s@.len(),
            None => value_at(s@, at as int) is None,
        },
    decreases s@.len() - at, 1int,
{
    let p: usize = skip(s, at);
    proof {
        lemma_skip_space(s@, at as int);
    }
    if p >= s.len() {
        return None;
    }
    let c = s[p];
    if c == '{' {
        object(s, p)
    } else if c == '[' {
        array(s, p)
    } else if c == '"' {
        match string(s, p) {
            Some((t, next)) => Some((Json::Str(t), next)),
            None => None,
        }
    } else if c == 't' {
        proof {
            reveal_strlit("true");
        }
        if literal(s, p, "true") {
            Some((Json::Bool(true), p + 4))
        } else {
            None
        }
    } else if c == 'f' {
        proof {
            reveal_strlit("false");
        }
        if literal(s, p, "false") {
            Some((Json::Bool(false), p + 5))
        } else {
            None
        }
    } else if c == 'n' {
        proof {
            reveal_strlit("null");
        }
        if literal(s, p, "null") {
            Some((Json::Null, p + 4))
        } else {
            None
        }
    } else {
        number(s, p)
    }
}

fn array(s: &[char], at: usize) -> (found: Option<(Json, usize)>)
    requires
        at < s@.len(),
        s@[at as int] == '[',
        at as int == skip_space(s@, at as int),
    ensures
        match found {
            Some((j, next)) => value_at(s@, at as int) == Some((doc(j), next as int)) && at < next
                <= s@.len(),
            None => value_at(s@, at as int) is None,
        },
    decreases s@.len() - at, 0int,
{
    let mut items: Vec<Json> = Vec::new();
    let n: usize = s.len();
    let q: usize = skip(s, at + 1);
    if q < n && s[q] == ']' {
        proof {
            assert(doc(Json::Arr(items))->Arr_0 =~= seq![]);
        }
        return Some((Json::Arr(items), q + 1));
    }
    let ghost whole = items_at(s@, at + 1);
    let mut i: usize = at + 1;
    proof {
        assert(docs(items@) =~= seq![]);
        lemma_led_by_nothing(items_at(s@, i as int));
    }
    loop
        invariant
            at < i <= s@.len(),
            whole == items_at(s@, at + 1),
            whole == led_by(docs(items@), items_at(s@, i as int)),
            value_at(s@, at as int) == match whole {
                Some((ds, next)) => Some((Doc::Arr(ds), next)),
                None => None,
            },
        decreases s@.len() - i,
    {
        let (v, next) = match value(s, i) {
            Some(found) => found,
            None => return None,
        };
        let p: usize = skip(s, next);
        if p >= s.len() {
            return None;
        }
        let ghost before = docs(items@);
        items.push(v);
        proof {
            assert(docs(items@) =~= before + seq![doc(v)]);
        }
        if s[p] == ',' {
            proof {
                lemma_led_by_twice(before, seq![doc(v)], items_at(s@, p + 1));
            }
            i = p + 1;
        } else if s[p] == ']' {
            proof {
                assert(doc(Json::Arr(items))->Arr_0 =~= docs(items@));
            }
            return Some((Json::Arr(items), p + 1));
        } else {
            return None;
        }
    }
}

fn object(s: &[char], at: usize) -> (found: Option<(Json, usize)>)
    requires
        at < s@.len(),
        s@[at as int] == '{',
        at as int == skip_space(s@, at as int),
    ensures
        match found {
            Some((j, next)) => value_at(s@, at as int) == Some((doc(j), next as int)) && at < next
                <= s@.len(),
            None => value_at(s@, at as int) is None,
        },
    decreases s@.len() - at, 0int,
{
    let mut fields: Vec<(String, Json)> = Vec::new();
    let n: usize = s.len();
    let q: usize = skip(s, at + 1);
    if q < n && s[q] == '}' {
        proof {
            assert(doc(Json::Obj(fields))->Obj_0 =~= seq![]);
        }
        return Some((Json::Obj(fields), q + 1));
    }
    let ghost whole = fields_at(s@, at + 1);
    let mut i: usize = at + 1;
    proof {
        assert(docs_of_fields(fields@) =~= seq![]);
        lemma_led_by_nothing(fields_at(s@, i as int));
    }
    loop
        invariant
            at < i <= s@.len(),
            whole == fields_at(s@, at + 1),
            whole == led_by(docs_of_fields(fields@), fields_at(s@, i as int)),
            value_at(s@, at as int) == match whole {
                Some((fs, next)) => Some((Doc::Obj(fs), next)),
                None => None,
            },
        decreases s@.len() - i,
    {
        let k: usize = skip(s, i);
        let (key, after_key) = match string(s, k) {
            Some(found) => found,
            None => return None,
        };
        let colon: usize = skip(s, after_key);
        if colon >= s.len() || s[colon] != ':' {
            return None;
        }
        let (v, next) = match value(s, colon + 1) {
            Some(found) => found,
            None => return None,
        };
        let p: usize = skip(s, next);
        if p >= s.len() {
            return None;
        }
        let ghost before = docs_of_fields(fields@);
        let ghost this = (key@, doc(v));
        fields.push((key, v));
        proof {
            assert(docs_of_fields(fields@) =~= before + seq![this]);
        }
        if s[p] == ',' {
            proof {
                lemma_led_by_twice(before, seq![this], fields_at(s@, p + 1));
            }
            i = p + 1;
        } else if s[p] == '}' {
            proof {
                assert(doc(Json::Obj(fields))->Obj_0 =~= docs_of_fields(fields@));
            }
            return Some((Json::Obj(fields), p + 1));
        } else {
            return None;
        }
    }
}

/// Read a JSON document.
pub fn parse(input: &str) -> (j: Option<Json>)
    ensures
        match j {
            Some(v) => parsed(input@) == Some(doc(v)),
            None => parsed(input@) is None,
        },
{
    let chars = chars_of(input);
    let s = chars.as_slice();
    match value(s, 0) {
        Some((v, next)) => {
            if skip(s, next) == s.len() {
                Some(v)
            } else {
                None
            }
        },
        None => None,
    }
}

/// The hexadecimal digits written for a control character read back as it.
proof fn lemma_control_escape(whole: Seq<char>, at: int, c: char)
    requires
        (c as u32) < 0x20,
        0 <= at,
        at + 6 <= whole.len(),
        whole.subrange(at, at + 6) == escaped_char(c),
        escaped_char(c).len() == 6,
    ensures
        escape_at(whole, at + 1) == Some((c, at + 6)),
{
    let e = escaped_char(c);
    let sub = whole.subrange(at, at + 6);
    assert(sub[0] == whole[at] && sub[1] == whole[at + 1] && sub[2] == whole[at + 2] && sub[3]
        == whole[at + 3] && sub[4] == whole[at + 4] && sub[5] == whole[at + 5]);
    let n = (c as u32) as int;
    assert(hex_value(hex_digit(n / 16)) == Some(n / 16));
    assert(hex_value(hex_digit(n % 16)) == Some(n % 16));
    assert(hex4(whole, at + 2) == Some(n));
    vstd::utf8::char_u32_cast(c, c as u32);
}

pub proof fn lemma_stands_split(s: Seq<char>, at: int, a: Seq<char>, b: Seq<char>)
    requires
        0 <= at,
        stands_at(s, at, a + b),
    ensures
        stands_at(s, at, a),
        stands_at(s, at + a.len(), b),
{
    let both = s.subrange(at, at + (a + b).len());
    assert(s.subrange(at, at + a.len()) =~= a) by {
        assert forall|i: int| 0 <= i < a.len() implies #[trigger] s[at + i] == a[i] by {
            assert(both[i] == (a + b)[i]);
        }
    }
    let m = at + a.len();
    let second = s.subrange(m, m + b.len());
    assert forall|i: int| 0 <= i < b.len() implies #[trigger] second[i] == b[i] by {
        assert(both[a.len() + i] == (a + b)[a.len() + i]);
    }
    assert(second =~= b);
}

pub proof fn lemma_stands_first(s: Seq<char>, at: int, a: Seq<char>)
    requires
        0 <= at,
        stands_at(s, at, a),
        a.len() > 0,
    ensures
        at < s.len(),
        s[at] == a[0],
{
    assert(s.subrange(at, at + a.len())[0] == a[0]);
}

proof fn lemma_escaped_char_reads_back(whole: Seq<char>, at: int, c: char)
    requires
        0 <= at,
        stands_at(whole, at, escaped_char(c)),
    ensures
        string_rest(whole, at) == led_by(
            seq![c],
            string_rest(whole, at + escaped_char(c).len()),
        ),
{
    let e = escaped_char(c);
    assert(whole.subrange(at, at + e.len()) == e);
    assert(e[0] == whole[at]);
    if e.len() > 1 {
        assert(e[1] == whole[at + 1]);
    }
    if e.len() == 6 {
        lemma_control_escape(whole, at, c);
    }
}

proof fn lemma_escaped_reads_back(whole: Seq<char>, at: int, s: Seq<char>)
    requires
        0 <= at,
        stands_at(whole, at, escaped(s) + seq!['"']),
    ensures
        string_rest(whole, at) == Some((s, at + escaped(s).len() + 1)),
    decreases s.len(),
{
    if s.len() == 0 {
        assert(escaped(s) + seq!['"'] =~= seq!['"']);
        lemma_stands_first(whole, at, seq!['"']);
        assert(s =~= seq![]);
    } else {
        let c = s[0];
        let rest = s.drop_first();
        let e = escaped_char(c);
        assert(escaped(s) + seq!['"'] =~= e + (escaped(rest) + seq!['"']));
        lemma_stands_split(whole, at, e, escaped(rest) + seq!['"']);
        lemma_escaped_char_reads_back(whole, at, c);
        lemma_escaped_reads_back(whole, at + e.len(), rest);
        assert(seq![c] + rest =~= s);
    }
}

/// A quoted text reads back as that text, wherever in a document it stands.
pub proof fn law_a_quoted_text_reads_back(whole: Seq<char>, at: int, s: Seq<char>)
    requires
        0 <= at,
        stands_at(whole, at, quoted(s)),
    ensures
        string_at(whole, at) == Some((s, at + quoted(s).len())),
{
    assert(quoted(s) =~= seq!['"'] + (escaped(s) + seq!['"']));
    lemma_stands_split(whole, at, seq!['"'], escaped(s) + seq!['"']);
    lemma_stands_first(whole, at, seq!['"']);
    lemma_escaped_reads_back(whole, at + 1, s);
}

/// What does not begin with a quote is no string literal.
pub proof fn law_a_text_begins_with_a_quote(s: Seq<char>, at: int)
    requires
        at >= s.len() || s[at] != '"',
    ensures
        string_at(s, at) is None,
{
}

/// The round trip: what `quote` writes, `parse` reads back as the same text.
pub proof fn law_parse_undoes_quote(s: Seq<char>)
    ensures
        parsed(quoted(s)) == Some(Doc::Str(s)),
{
    let whole = quoted(s);
    assert(whole.subrange(0, whole.len() as int) =~= whole);
    law_a_quoted_text_reads_back(whole, 0, s);
    assert(whole[0] == '"');
    assert(skip_space(whole, 0) == 0);
}

/// The fields of an object, each a quoted name and a quoted text.
pub open spec fn fields_text(fields: Seq<(Seq<char>, Seq<char>)>) -> Seq<char>
    decreases fields.len(),
{
    if fields.len() == 0 {
        seq![]
    } else {
        let first = quoted(fields[0].0) + seq![':'] + quoted(fields[0].1);
        if fields.len() == 1 {
            first
        } else {
            first + seq![','] + fields_text(fields.drop_first())
        }
    }
}

/// An object of text fields, written without white space.
pub open spec fn object_text(fields: Seq<(Seq<char>, Seq<char>)>) -> Seq<char> {
    seq!['{'] + fields_text(fields) + seq!['}']
}

pub open spec fn text_fields(fields: Seq<(Seq<char>, Seq<char>)>) -> Seq<(Seq<char>, Doc)> {
    Seq::new(fields.len(), |i: int| (fields[i].0, Doc::Str(fields[i].1)))
}

/// One field read: its name, its text, and where it ends.
proof fn lemma_field_reads_back(whole: Seq<char>, at: int, k: Seq<char>, v: Seq<char>)
    requires
        0 <= at,
        stands_at(whole, at, quoted(k) + seq![':'] + quoted(v)),
    ensures
        skip_space(whole, at) == at,
        string_at(whole, at) == Some((k, at + quoted(k).len())),
        skip_space(whole, at + quoted(k).len()) == at + quoted(k).len(),
        at + quoted(k).len() < whole.len(),
        whole[(at + quoted(k).len()) as int] == ':',
        value_at(whole, at + quoted(k).len() + 1) == Some(
            (Doc::Str(v), at + quoted(k).len() + 1 + quoted(v).len()),
        ),
{
    let colon = at + quoted(k).len();
    assert(quoted(k) + seq![':'] + quoted(v) =~= quoted(k) + (seq![':'] + quoted(v)));
    lemma_stands_split(whole, at, quoted(k), seq![':'] + quoted(v));
    lemma_stands_split(whole, colon, seq![':'], quoted(v));
    lemma_stands_first(whole, at, quoted(k));
    lemma_stands_first(whole, colon, seq![':']);
    lemma_stands_first(whole, colon + 1, quoted(v));
    law_a_quoted_text_reads_back(whole, at, k);
    law_a_quoted_text_reads_back(whole, colon + 1, v);
    assert(skip_space(whole, colon + 1) == colon + 1);
}

proof fn lemma_fields_read_back(
    whole: Seq<char>,
    at: int,
    fields: Seq<(Seq<char>, Seq<char>)>,
)
    requires
        0 <= at,
        fields.len() > 0,
        stands_at(whole, at, fields_text(fields) + seq!['}']),
    ensures
        fields_at(whole, at) == Some((text_fields(fields), at + fields_text(fields).len() + 1)),
    decreases fields.len(),
{
    let (k, v) = fields[0];
    let rest = fields.drop_first();
    let first = quoted(k) + seq![':'] + quoted(v);
    let behind = at + first.len();
    if fields.len() == 1 {
        lemma_stands_split(whole, at, first, seq!['}']);
        lemma_field_reads_back(whole, at, k, v);
        lemma_stands_first(whole, behind, seq!['}']);
        assert(skip_space(whole, behind) == behind);
        assert(text_fields(fields) =~= seq![(k, Doc::Str(v))]);
    } else {
        let tail = fields_text(rest) + seq!['}'];
        assert(fields_text(fields) + seq!['}'] =~= first + (seq![','] + tail));
        lemma_stands_split(whole, at, first, seq![','] + tail);
        lemma_stands_split(whole, behind, seq![','], tail);
        lemma_field_reads_back(whole, at, k, v);
        lemma_stands_first(whole, behind, seq![',']);
        assert(skip_space(whole, behind) == behind);
        lemma_fields_read_back(whole, behind + 1, rest);
        assert(seq![(k, Doc::Str(v))] + text_fields(rest) =~= text_fields(fields));
    }
}

/// An object whose names and texts were quoted reads back with all of them, in
/// their order.
pub proof fn law_an_object_of_texts_reads_back(fields: Seq<(Seq<char>, Seq<char>)>)
    requires
        fields.len() > 0,
    ensures
        parsed(object_text(fields)) == Some(Doc::Obj(text_fields(fields))),
{
    let whole = object_text(fields);
    let tail = fields_text(fields) + seq!['}'];
    assert(whole =~= seq!['{'] + tail);
    assert(whole.subrange(0, whole.len() as int) =~= whole);
    lemma_stands_split(whole, 0, seq!['{'], tail);
    lemma_fields_read_back(whole, 1, fields);
    assert(whole[0] == '{');
    assert(skip_space(whole, 0) == 0);
    assert(fields_text(fields)[0] == '"') by {
        assert(quoted(fields[0].0)[0] == '"');
    }
    assert(whole[1] == '"');
    assert(skip_space(whole, 1) == 1);
}

} // verus!
