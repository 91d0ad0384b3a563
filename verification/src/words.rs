//! Taking the output of other programs apart: lines, words, numbers.
use vstd::prelude::*;
use crate::text::{
    all_digits, chars_of, decimal, digits_value, find_chars, first_at, found_at, is_digit, joined,
    law_decimal_reads_back, lemma_decimal, lemma_found_at, parse_unsigned, string_of, strings,
    unsigned,
};

verus! {

/// White space as Unicode has it.
pub open spec fn is_white(c: char) -> bool {
    let n = c as u32;
    ||| 0x09 <= n <= 0x0d
    ||| n == 0x20
    ||| n == 0x85
    ||| n == 0xa0
    ||| n == 0x1680
    ||| 0x2000 <= n <= 0x200a
    ||| n == 0x2028
    ||| n == 0x2029
    ||| n == 0x202f
    ||| n == 0x205f
    ||| n == 0x3000
}

pub fn white(c: char) -> (yes: bool)
    ensures
        yes == is_white(c),
{
    let n: u32 = c as u32;
    (0x09 <= n && n <= 0x0d) || n == 0x20 || n == 0x85 || n == 0xa0 || n == 0x1680 || (0x2000 <= n
        && n <= 0x200a) || n == 0x2028 || n == 0x2029 || n == 0x202f || n == 0x205f || n == 0x3000
}

/// The place behind the white space at `at`.
pub open spec fn white_end(s: Seq<char>, at: int) -> int
    decreases s.len() - at,
{
    if 0 <= at < s.len() && is_white(s[at]) {
        white_end(s, at + 1)
    } else {
        at
    }
}

/// The place behind the word at `at`.
pub open spec fn word_end(s: Seq<char>, at: int) -> int
    decreases s.len() - at,
{
    if 0 <= at < s.len() && !is_white(s[at]) {
        word_end(s, at + 1)
    } else {
        at
    }
}

pub proof fn lemma_ends(s: Seq<char>, at: int)
    requires
        0 <= at <= s.len(),
    ensures
        at <= white_end(s, at) <= s.len(),
        white_end(s, at) < s.len() ==> !is_white(s[white_end(s, at)]),
        at <= word_end(s, at) <= s.len(),
        at < s.len() && !is_white(s[at]) ==> at < word_end(s, at),
    decreases s.len() - at,
{
    if at < s.len() {
        lemma_ends(s, at + 1);
    }
}

/// The words of a text from `at` on: what stands between white space.
pub open spec fn words_from(s: Seq<char>, at: int) -> Seq<Seq<char>>
    decreases s.len() - at,
    when 0 <= at <= s.len()
{
    proof {
        lemma_ends(s, at);
        lemma_ends(s, white_end(s, at));
    }
    let from = white_end(s, at);
    if from >= s.len() {
        seq![]
    } else {
        let to = word_end(s, from);
        seq![s.subrange(from, to)] + words_from(s, to)
    }
}

pub open spec fn words_of(s: Seq<char>) -> Seq<Seq<char>> {
    words_from(s, 0)
}

/// The words of a text.
pub fn split_words(s: &[char]) -> (words: Vec<String>)
    ensures
        strings(words@) == words_of(s@),
{
    let n: usize = s.len();
    let mut words: Vec<String> = Vec::new();
    let mut i: usize = 0;
    proof {
        assert(strings(words@) + words_from(s@, 0) =~= words_of(s@));
    }
    loop
        invariant
            i <= n,
            n == s@.len(),
            strings(words@) + words_from(s@, i as int) == words_of(s@),
        decreases n - i,
    {
        let ghost at = i as int;
        while i < n && white(s[i])
            invariant
                at <= i <= n,
                n == s@.len(),
                white_end(s@, at) == white_end(s@, i as int),
            decreases n - i,
        {
            i = i + 1;
        }
        if i >= n {
            proof {
                assert(strings(words@) + words_from(s@, at) =~= strings(words@));
            }
            return words;
        }
        let from: usize = i;
        while i < n && !white(s[i])
            invariant
                from <= i <= n,
                n == s@.len(),
                word_end(s@, from as int) == word_end(s@, i as int),
            decreases n - i,
        {
            i = i + 1;
        }
        proof {
            lemma_ends(s@, from as int);
        }
        let word = string_of(s, from, i);
        let ghost before = strings(words@);
        words.push(word);
        proof {
            assert(strings(words@) =~= before.push(word@));
            assert(words_from(s@, at) == seq![word@] + words_from(s@, i as int));
            assert(strings(words@) + words_from(s@, i as int) =~= before + words_from(s@, at));
        }
    }
}

/// The pieces of a text between separators, the last one included.
pub open spec fn pieces(s: Seq<char>, sep: char) -> Seq<Seq<char>>
    decreases s.len(),
{
    match first_at(s, sep, 0) {
        Some(i) if 0 <= i < s.len() => seq![s.subrange(0, i)] + pieces(
            s.subrange(i + 1, s.len() as int),
            sep,
        ),
        _ => seq![s],
    }
}

/// The pieces of a text between separators.
pub fn split_pieces(s: &[char], sep: char) -> (parts: Vec<String>)
    ensures
        strings(parts@) == pieces(s@, sep),
        parts@.len() > 0,
{
    let n: usize = s.len();
    let mut parts: Vec<String> = Vec::new();
    let mut from: usize = 0;
    let mut i: usize = 0;
    proof {
        assert(s@.subrange(0, n as int) =~= s@);
        assert(strings(parts@) + pieces(s@, sep) =~= pieces(s@, sep));
    }
    while i < n
        invariant
            from <= i <= n,
            n == s@.len(),
            strings(parts@) + pieces(s@.subrange(from as int, n as int), sep) == pieces(s@, sep),
            first_at(s@.subrange(from as int, n as int), sep, 0) == first_at(
                s@.subrange(from as int, n as int),
                sep,
                i - from,
            ),
        decreases n - i,
    {
        let ghost rest = s@.subrange(from as int, n as int);
        proof {
            assert(rest[i - from] == s@[i as int]);
        }
        if s[i] == sep {
            let part = string_of(s, from, i);
            let ghost before = strings(parts@);
            parts.push(part);
            from = i + 1;
            proof {
                assert(strings(parts@) =~= before.push(part@));
                assert(rest.subrange(0, rest.len() - (n - i)) =~= part@);
                let after = s@.subrange(from as int, n as int);
                assert(rest.subrange(rest.len() - (n - i) + 1, rest.len() as int) =~= after);
                assert(pieces(rest, sep) == seq![part@] + pieces(after, sep));
                assert(strings(parts@) + pieces(after, sep) =~= before + pieces(rest, sep));
            }
        }
        i = i + 1;
    }
    let part = string_of(s, from, n);
    let ghost before = strings(parts@);
    parts.push(part);
    proof {
        assert(strings(parts@) =~= before.push(part@));
        assert(strings(parts@) =~= before + pieces(s@.subrange(from as int, n as int), sep));
    }
    parts
}

/// The place of the last character that is no white space, and one more; 0
/// where there is none.
pub open spec fn trimmed_end(s: Seq<char>, to: int) -> int
    decreases to,
{
    if 0 < to <= s.len() && is_white(s[to - 1]) {
        trimmed_end(s, to - 1)
    } else {
        to
    }
}

/// A text without the white space around it.
pub open spec fn trimmed(s: Seq<char>) -> Seq<char> {
    let from = white_end(s, 0);
    let to = trimmed_end(s, s.len() as int);
    if from < to {
        s.subrange(from, to)
    } else {
        seq![]
    }
}

/// A text without the white space around it.
pub fn trim(s: &[char]) -> (t: Vec<char>)
    ensures
        t@ == trimmed(s@),
{
    let n: usize = s.len();
    let mut from: usize = 0;
    while from < n && white(s[from])
        invariant
            from <= n,
            n == s@.len(),
            white_end(s@, 0) == white_end(s@, from as int),
        decreases n - from,
    {
        from = from + 1;
    }
    let mut to: usize = n;
    while to > 0 && white(s[to - 1])
        invariant
            to <= n,
            n == s@.len(),
            trimmed_end(s@, n as int) == trimmed_end(s@, to as int),
        decreases to,
    {
        to = to - 1;
    }
    let mut t: Vec<char> = Vec::new();
    let mut i: usize = from;
    while i < to
        invariant
            from <= i,
            i <= to || to < from,
            to <= n,
            n == s@.len(),
            from <= to ==> t@ == s@.subrange(from as int, i as int),
            to < from ==> i == from && t@.len() == 0,
        decreases to - i,
    {
        t.push(s[i]);
        i = i + 1;
        proof {
            assert(t@ =~= s@.subrange(from as int, i as int));
        }
    }
    proof {
        if from < to {
            assert(t@ =~= trimmed(s@));
        } else {
            assert(t@ =~= seq![]);
        }
    }
    t
}

/// Whether `part` occurs in `s`.
pub open spec fn holds(s: Seq<char>, part: Seq<char>) -> bool {
    found_at(s, part, 0) is Some
}

/// What stands at some place of a text occurs in it.
pub proof fn lemma_holds_at(s: Seq<char>, part: Seq<char>, at: int)
    requires
        0 <= at,
        at + part.len() <= s.len(),
        s.subrange(at, at + part.len()) == part,
    ensures
        holds(s, part),
{
    lemma_found_at(s, part, 0);
}

/// What occurs in a part of a text occurs in the text.
pub proof fn lemma_holds_within(a: Seq<char>, part: Seq<char>, b: Seq<char>, inner: Seq<char>)
    requires
        holds(part, inner),
    ensures
        holds(a + part + b, inner),
{
    lemma_found_at(part, inner, 0);
    let i = found_at(part, inner, 0)->0;
    let s = a + part + b;
    let at = a.len() + i;
    assert(s.subrange(at, at + inner.len()) =~= part.subrange(i, i + inner.len()));
    lemma_holds_at(s, inner, at);
}

/// A text occurs in itself.
pub proof fn lemma_holds_itself(s: Seq<char>)
    ensures
        holds(s, s),
{
    assert(s.subrange(0, 0 + s.len() as int) =~= s);
    lemma_holds_at(s, s, 0);
}

/// Each of the parts occurs where they are joined.
pub proof fn lemma_joined_holds(parts: Seq<Seq<char>>, sep: Seq<char>, k: int, inner: Seq<char>)
    requires
        0 <= k < parts.len(),
        holds(parts[k], inner),
    ensures
        holds(joined(parts, sep), inner),
    decreases parts.len(),
{
    let none = Seq::<char>::empty();
    if parts.len() > 1 {
        let short = parts.drop_last();
        if k < short.len() {
            lemma_joined_holds(short, sep, k, inner);
            lemma_holds_within(none, joined(short, sep), sep + parts.last(), inner);
            assert(none + joined(short, sep) + (sep + parts.last()) =~= joined(parts, sep));
        } else {
            lemma_holds_within(joined(short, sep) + sep, parts.last(), none, inner);
            assert(joined(short, sep) + sep + parts.last() + none =~= joined(parts, sep));
        }
    }
}

pub fn contains(s: &str, part: &str) -> (yes: bool)
    ensures
        yes == holds(s@, part@),
{
    let chars = chars_of(s);
    let wanted = chars_of(part);
    find_chars(chars.as_slice(), wanted.as_slice(), 0).is_some()
}

/// The number that a text stands for, the way the 32-bit signed integers of
/// Rust are read.
pub open spec fn signed(s: Seq<char>) -> Option<int> {
    if s.len() > 0 && s[0] == '-' {
        let d = s.drop_first();
        if d.len() > 0 && all_digits(d) && digits_value(d) <= 0x8000_0000 {
            Some(-(digits_value(d) as int))
        } else {
            None
        }
    } else {
        match unsigned(s) {
            Some(n) => if n <= 0x7fff_ffff {
                Some(n as int)
            } else {
                None
            },
            None => None,
        }
    }
}

pub fn parse_signed(s: &[char]) -> (n: Option<i32>)
    ensures
        match n {
            Some(v) => signed(s@) == Some(v as int),
            None => signed(s@) is None,
        },
{
    let len: usize = s.len();
    if len > 0 && s[0] == '-' {
        let d = vstd::slice::slice_subrange(s, 1, len);
        proof {
            assert(d@ =~= s@.drop_first());
        }
        if d.len() > 0 && d[0] == '+' {
            proof {
                assert(!crate::text::is_digit(d@[0]));
            }
            return None;
        }
        match parse_unsigned(d, 0x8000_0000) {
            Some(v) => Some((0 - v as i64) as i32),
            None => None,
        }
    } else {
        match parse_unsigned(s, 0x7fff_ffff) {
            Some(v) => Some(v as i32),
            None => None,
        }
    }
}

pub open spec fn all_white(s: Seq<char>) -> bool {
    forall|i: int| 0 <= i < s.len() ==> is_white(#[trigger] s[i])
}

/// A word: something, and no white space in it.
pub open spec fn is_word(s: Seq<char>) -> bool {
    s.len() > 0 && forall|i: int| 0 <= i < s.len() ==> !is_white(#[trigger] s[i])
}

proof fn lemma_white_end(s: Seq<char>, at: int, to: int)
    requires
        0 <= at <= to <= s.len(),
        forall|i: int| at <= i < to ==> is_white(#[trigger] s[i]),
        to == s.len() || !is_white(s[to]),
    ensures
        white_end(s, at) == to,
    decreases to - at,
{
    if at < to {
        assert(is_white(s[at]));
        lemma_white_end(s, at + 1, to);
    }
}

proof fn lemma_word_end(s: Seq<char>, at: int, to: int)
    requires
        0 <= at <= to <= s.len(),
        forall|i: int| at <= i < to ==> !is_white(#[trigger] s[i]),
        to == s.len() || is_white(s[to]),
    ensures
        word_end(s, at) == to,
    decreases to - at,
{
    if at < to {
        assert(!is_white(s[at]));
        lemma_word_end(s, at + 1, to);
    }
}

/// The first of some parts that are joined, and the rest of them.
pub proof fn lemma_joined_first(parts: Seq<Seq<char>>, sep: Seq<char>)
    requires
        parts.len() > 1,
    ensures
        joined(parts, sep) == parts[0] + sep + joined(parts.drop_first(), sep),
    decreases parts.len(),
{
    let rest = parts.drop_first();
    if parts.len() == 2 {
        assert(parts.drop_last() =~= seq![parts[0]]);
        assert(joined(parts.drop_last(), sep) == parts[0]);
        assert(rest =~= seq![parts[1]]);
    } else {
        let short = parts.drop_last();
        lemma_joined_first(short, sep);
        assert(short.drop_first() =~= rest.drop_last());
        assert(joined(parts, sep) =~= parts[0] + sep + joined(rest, sep));
    }
}

proof fn lemma_words_from(
    pre: Seq<char>,
    lead: Seq<char>,
    words: Seq<Seq<char>>,
    gap: Seq<char>,
    trail: Seq<char>,
)
    requires
        forall|i: int| 0 <= i < words.len() ==> is_word(#[trigger] words[i]),
        all_white(lead),
        all_white(gap),
        gap.len() > 0,
        all_white(trail),
    ensures
        words_from(pre + lead + joined(words, gap) + trail, pre.len() as int) == words,
    decreases words.len(),
{
    let s = pre + lead + joined(words, gap) + trail;
    let at = pre.len() as int;
    let from = at + lead.len();
    if words.len() == 0 {
        assert(joined(words, gap) =~= seq![]);
        assert forall|i: int| at <= i < s.len() implies is_white(#[trigger] s[i]) by {
            if i < from {
                assert(s[i] == lead[i - at]);
            } else {
                assert(s[i] == trail[i - from]);
            }
        }
        lemma_white_end(s, at, s.len() as int);
        assert(words =~= seq![]);
    } else {
        let w = words[0];
        let rest = words.drop_first();
        let to = from + w.len();
        assert(is_word(w));
        assert forall|i: int| 0 <= i < rest.len() implies is_word(#[trigger] rest[i]) by {
            assert(is_word(words[i + 1]));
        }
        if words.len() == 1 {
            assert(joined(words, gap) == w);
            assert(joined(rest, gap) =~= seq![]);
            lemma_words_from(pre + lead + w, trail, rest, gap, seq![]);
            assert(pre + lead + w + trail + joined(rest, gap) + seq![] =~= s);
            if trail.len() > 0 {
                assert(s[to] == trail[0]);
                assert(is_white(trail[0]));
            }
        } else {
            lemma_joined_first(words, gap);
            lemma_words_from(pre + lead + w, gap, rest, gap, trail);
            assert(pre + lead + w + gap + joined(rest, gap) + trail =~= s);
            assert(s[to] == gap[0]);
            assert(is_white(gap[0]));
        }
        assert forall|i: int| at <= i < from implies is_white(#[trigger] s[i]) by {
            assert(s[i] == lead[i - at]);
        }
        assert forall|i: int| from <= i < to implies !is_white(#[trigger] s[i]) by {
            assert(s[i] == w[i - from]);
        }
        assert(s[from] == w[0]);
        assert(!is_white(w[0]));
        lemma_white_end(s, at, from);
        lemma_word_end(s, from, to);
        assert(s.subrange(from, to) =~= w);
        assert(seq![w] + rest =~= words);
    }
}

/// The words of a text are what stands between white space, whatever white
/// space that is, and however much of it stands around them.
pub proof fn law_words_stand_between_white_space(
    lead: Seq<char>,
    words: Seq<Seq<char>>,
    gap: Seq<char>,
    trail: Seq<char>,
)
    requires
        forall|i: int| 0 <= i < words.len() ==> is_word(#[trigger] words[i]),
        all_white(lead),
        all_white(gap),
        gap.len() > 0,
        all_white(trail),
    ensures
        words_of(lead + joined(words, gap) + trail) == words,
{
    lemma_words_from(seq![], lead, words, gap, trail);
    assert(seq![] + lead + joined(words, gap) + trail =~= lead + joined(words, gap) + trail);
}

proof fn lemma_trimmed_end(s: Seq<char>, end: int, to: int)
    requires
        0 <= end <= to <= s.len(),
        forall|i: int| end <= i < to ==> is_white(#[trigger] s[i]),
        end == 0 || !is_white(s[end - 1]),
    ensures
        trimmed_end(s, to) == end,
    decreases to - end,
{
    if end < to {
        assert(is_white(s[to - 1]));
        lemma_trimmed_end(s, end, to - 1);
    }
}

/// Trimming takes away the white space around a text, and nothing of the text.
pub proof fn law_trimming_leaves_the_text(lead: Seq<char>, text: Seq<char>, trail: Seq<char>)
    requires
        all_white(lead),
        all_white(trail),
        text.len() > 0 ==> !is_white(text[0]) && !is_white(text.last()),
    ensures
        trimmed(lead + text + trail) == text,
{
    let s = lead + text + trail;
    let from = lead.len() as int;
    let to = from + text.len();
    assert forall|i: int| 0 <= i < from implies is_white(#[trigger] s[i]) by {
        assert(s[i] == lead[i]);
    }
    assert forall|i: int| to <= i < s.len() implies is_white(#[trigger] s[i]) by {
        assert(s[i] == trail[i - to]);
    }
    if text.len() > 0 {
        assert(s[from] == text[0]);
        assert(s[to - 1] == text.last());
        lemma_white_end(s, 0, from);
        lemma_trimmed_end(s, to, s.len() as int);
        assert(s.subrange(from, to) =~= text);
    } else {
        assert forall|i: int| 0 <= i < s.len() implies is_white(#[trigger] s[i]) by {}
        lemma_white_end(s, 0, s.len() as int);
        lemma_trimmed_end(s, 0, s.len() as int);
        assert(text =~= seq![]);
    }
}

proof fn lemma_first_at_behind(a: Seq<char>, sep: char, b: Seq<char>, i: int)
    requires
        0 <= i <= a.len(),
        forall|k: int| 0 <= k < a.len() ==> #[trigger] a[k] != sep,
    ensures
        first_at(a, sep, i) is None,
        first_at(a + seq![sep] + b, sep, i) == Some(a.len() as int),
    decreases a.len() - i,
{
    let s = a + seq![sep] + b;
    if i < a.len() {
        lemma_first_at_behind(a, sep, b, i + 1);
        assert(s[i] == a[i]);
    } else {
        assert(s[i] == sep);
    }
}

/// The pieces of a text are what was joined, as long as no separator is in
/// them.
pub proof fn law_pieces_are_what_was_joined(parts: Seq<Seq<char>>, sep: char)
    requires
        parts.len() > 0,
        forall|i: int, k: int|
            0 <= i < parts.len() && 0 <= k < parts[i].len() ==> #[trigger] parts[i][k] != sep,
    ensures
        pieces(joined(parts, seq![sep]), sep) == parts,
    decreases parts.len(),
{
    let a = parts[0];
    let rest = parts.drop_first();
    assert forall|k: int| 0 <= k < a.len() implies #[trigger] a[k] != sep by {
        assert(parts[0][k] != sep);
    }
    lemma_first_at_behind(a, sep, seq![], 0);
    if parts.len() == 1 {
        assert(seq![a] =~= parts);
    } else {
        lemma_joined_first(parts, seq![sep]);
        let b = joined(rest, seq![sep]);
        let s = a + seq![sep] + b;
        lemma_first_at_behind(a, sep, b, 0);
        assert forall|i: int, k: int| 0 <= i < rest.len() && 0 <= k < rest[i].len() implies
            #[trigger] rest[i][k] != sep by {
            assert(parts[i + 1][k] != sep);
        }
        law_pieces_are_what_was_joined(rest, sep);
        assert(s.subrange(0, a.len() as int) =~= a);
        assert(s.subrange(a.len() as int + 1, s.len() as int) =~= b);
        assert(seq![a] + rest =~= parts);
    }
}

/// Numbers below zero are read behind a minus sign, and both kinds only as far
/// as 32 bits go.
pub proof fn law_signed_numbers(n: nat)
    ensures
        signed(decimal(n)) == (if n <= 2147483647 {
            Some(n as int)
        } else {
            None
        }),
        signed(seq!['-'] + decimal(n)) == (if n <= 2147483648 {
            Some(-(n as int))
        } else {
            None
        }),
{
    lemma_decimal(n);
    law_decimal_reads_back(n);
    assert(is_digit(decimal(n)[0]));
    assert((seq!['-'] + decimal(n)).drop_first() =~= decimal(n));
    assert((seq!['-'] + decimal(n))[0] == '-');
}

/// Of the characters of ASCII, the blank and the five from the tab to the
/// carriage return are white space.
pub proof fn law_white_space(c: char)
    requires
        c as u32 <= 127,
    ensures
        is_white(c) <==> c == ' ' || c == '\t' || c == '\n' || c == '\u{b}' || c == '\u{c}' || c
            == '\r',
{
}

/// A text is in another exactly where that is something, the text, and something
/// more.
pub proof fn law_what_a_text_holds(s: Seq<char>, part: Seq<char>, lead: Seq<char>, trail: Seq<char>)
    ensures
        holds(lead + part + trail, part),
        holds(s, part) ==> exists|i: int|
            0 <= i <= s.len() - part.len() && s == s.take(i) + part + #[trigger] s.skip(
                i + part.len(),
            ),
{
    lemma_holds_itself(part);
    lemma_holds_within(lead, part, trail, part);
    if holds(s, part) {
        lemma_found_at(s, part, 0);
        let i = found_at(s, part, 0)->0;
        assert(s.subrange(i, i + part.len()) == part);
        assert(s =~= s.take(i) + s.subrange(i, i + part.len()) + s.skip(i + part.len()));
    }
}

} // verus!
