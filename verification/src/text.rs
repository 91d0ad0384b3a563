//! The few operations on text that the rest of the library is built from.
use vstd::prelude::*;

verus! {

/// `String::push` appends one character to what the string already holds.
pub assume_specification[ String::push ](s: &mut String, c: char)
    ensures
        final(s)@ == old(s)@.push(c),
;

/// Whether two texts hold the same characters in the same order.
pub fn same_text(a: &str, b: &str) -> (same: bool)
    ensures
        same == (a@ == b@),
{
    let x = chars_of(a);
    let y = chars_of(b);
    proof {
        assert(x@.subrange(0, x@.len() as int) =~= x@);
    }
    x.len() == y.len() && chars_at(x.as_slice(), 0, y.as_slice())
}

/// A text as it is shown between quotes, with what would not print escaped.
pub uninterp spec fn debugged(s: Seq<char>) -> Seq<char>;

/// `format!` with `{:?}`, which is `Debug` of `str`: the result depends on the
/// text alone.  Which characters are escaped, and how, is not spelled out.
#[verifier::external_body]
pub(crate) fn debug_text(s: &str) -> (shown: String)
    ensures
        shown@ == debugged(s@),
{
    format!("{:?}", s)
}

pub open spec fn is_upper(c: char) -> bool {
    'A' <= c <= 'Z'
}

pub open spec fn is_lower(c: char) -> bool {
    'a' <= c <= 'z'
}

pub open spec fn is_letter(c: char) -> bool {
    is_upper(c) || is_lower(c)
}

pub open spec fn is_digit(c: char) -> bool {
    '0' <= c <= '9'
}

/// `c` with an ASCII capital turned into its small letter.
pub open spec fn lower(c: char) -> char {
    if is_upper(c) {
        ((c as u8) + 32) as u8 as char
    } else {
        c
    }
}

/// `c` with an ASCII small letter turned into its capital.
pub open spec fn upper(c: char) -> char {
    if is_lower(c) {
        ((c as u8) - 32) as u8 as char
    } else {
        c
    }
}

pub proof fn lemma_upper_of_lower(c: char)
    ensures
        upper(lower(c)) == upper(c),
{
    if is_upper(c) {
        assert(lower(c) as u32 == c as u32 + 32);
        assert(upper(lower(c)) as u32 == c as u32);
    }
}

pub fn is_ascii_letter(c: char) -> (yes: bool)
    ensures
        yes == is_letter(c),
{
    ('A' <= c && c <= 'Z') || ('a' <= c && c <= 'z')
}

pub fn to_lower(c: char) -> (l: char)
    ensures
        l == lower(c),
{
    if 'A' <= c && c <= 'Z' {
        (c as u8 + 32) as char
    } else {
        c
    }
}

/// Where `x` first occurs in `s` at or after `from`.
pub open spec fn first_at<T>(s: Seq<T>, x: T, from: int) -> Option<int>
    decreases s.len() - from,
{
    if from >= s.len() {
        None
    } else if s[from] == x {
        Some(from)
    } else {
        first_at(s, x, from + 1)
    }
}

/// What `first_at` finds is an occurrence, and it finds one if there is any.
pub proof fn lemma_first_at<T>(s: Seq<T>, x: T, from: int)
    requires
        0 <= from,
    ensures
        match first_at(s, x, from) {
            Some(i) => from <= i < s.len() && s[i] == x && forall|j: int|
                from <= j < i ==> s[j] != x,
            None => forall|j: int| from <= j < s.len() ==> s[j] != x,
        },
    decreases s.len() - from,
{
    if from < s.len() && s[from] != x {
        lemma_first_at(s, x, from + 1);
    }
}

/// The position of the first `c` in `s`, counted in characters.
pub fn position(s: &str, c: char) -> (at: Option<usize>)
    ensures
        match at {
            Some(i) => first_at(s@, c, 0) == Some(i as int),
            None => first_at(s@, c, 0) is None,
        },
{
    let n: usize = s.unicode_len();
    let mut i: usize = 0;
    while i < n
        invariant
            n == s@.len(),
            i <= n,
            first_at(s@, c, 0) == first_at(s@, c, i as int),
        decreases n - i,
    {
        if s.get_char(i) == c {
            return Some(i);
        }
        i = i + 1;
    }
    None
}

/// Lexicographic order by characters, which is the order of `str`: `a` from
/// `i` on comes before `b` from `i` on, or is the same.
pub open spec fn text_le_from(a: Seq<char>, b: Seq<char>, i: int) -> bool
    decreases a.len() - i,
{
    if i >= a.len() {
        true
    } else if i >= b.len() {
        false
    } else if a[i] == b[i] {
        text_le_from(a, b, i + 1)
    } else {
        a[i] < b[i]
    }
}

pub open spec fn text_le(a: Seq<char>, b: Seq<char>) -> bool {
    text_le_from(a, b, 0)
}

pub proof fn lemma_text_le_reflexive(a: Seq<char>, i: int)
    ensures
        text_le_from(a, a, i),
    decreases a.len() - i,
{
    if i < a.len() {
        lemma_text_le_reflexive(a, i + 1);
    }
}

pub proof fn lemma_text_total(a: Seq<char>, b: Seq<char>, i: int)
    ensures
        text_le_from(a, b, i) || text_le_from(b, a, i),
    decreases a.len() - i,
{
    if i < a.len() && i < b.len() {
        lemma_text_total(a, b, i + 1);
    }
}

pub proof fn lemma_text_le_transitive(a: Seq<char>, b: Seq<char>, c: Seq<char>, i: int)
    requires
        text_le_from(a, b, i),
        text_le_from(b, c, i),
    ensures
        text_le_from(a, c, i),
    decreases a.len() - i,
{
    if i < a.len() && a[i] == b[i] && b[i] == c[i] {
        lemma_text_le_transitive(a, b, c, i + 1);
    }
}

pub fn text_at_most(a: &str, b: &str) -> (le: bool)
    ensures
        le == text_le(a@, b@),
{
    let n: usize = a.unicode_len();
    let m: usize = b.unicode_len();
    let mut i: usize = 0;
    while i < n
        invariant
            n == a@.len(),
            m == b@.len(),
            i <= n,
            text_le(a@, b@) == text_le_from(a@, b@, i as int),
        decreases n - i,
    {
        if i >= m {
            return false;
        }
        let x = a.get_char(i);
        let y = b.get_char(i);
        if x != y {
            return x < y;
        }
        i = i + 1;
    }
    true
}

/// The decimal digit `d`.
pub open spec fn digit(d: int) -> char {
    (48 + d) as u8 as char
}

/// A number in decimal, without leading zeros.
pub open spec fn decimal(n: nat) -> Seq<char>
    decreases n,
{
    if n < 10 {
        seq![digit(n as int)]
    } else {
        decimal(n / 10).push(digit((n % 10) as int))
    }
}

pub fn push_decimal(out: &mut String, n: u64)
    ensures
        final(out)@ == old(out)@ + decimal(n as nat),
    decreases n,
{
    if n >= 10 {
        push_decimal(out, n / 10);
    }
    out.push((48 + (n % 10) as u8) as char);
    proof {
        assert(out@ =~= old(out)@ + decimal(n as nat));
    }
}

pub fn to_decimal(n: u64) -> (s: String)
    ensures
        s@ == decimal(n as nat),
{
    let mut s = String::new();
    push_decimal(&mut s, n);
    proof {
        assert(s@ =~= decimal(n as nat));
    }
    s
}

/// The parts one after another, with `sep` between each two.
pub open spec fn joined(parts: Seq<Seq<char>>, sep: Seq<char>) -> Seq<char>
    decreases parts.len(),
{
    if parts.len() == 0 {
        seq![]
    } else if parts.len() == 1 {
        parts[0]
    } else {
        joined(parts.drop_last(), sep) + sep + parts.last()
    }
}

pub open spec fn strings(v: Seq<String>) -> Seq<Seq<char>> {
    v.map_values(|s: String| s@)
}

pub fn join(parts: &Vec<String>, sep: &str) -> (out: String)
    ensures
        out@ == joined(strings(parts@), sep@),
{
    let mut out = String::new();
    let ghost all = strings(parts@);
    let mut i: usize = 0;
    proof {
        assert(out@ =~= joined(all.subrange(0, 0), sep@));
    }
    while i < parts.len()
        invariant
            i <= parts@.len(),
            all == strings(parts@),
            out@ == joined(all.subrange(0, i as int), sep@),
        decreases parts@.len() - i,
    {
        if i > 0 {
            out.append(sep);
        }
        out.append(parts[i].as_str());
        i = i + 1;
        proof {
            let done = all.subrange(0, i as int);
            assert(done.drop_last() =~= all.subrange(0, i - 1));
            assert(out@ =~= joined(done, sep@));
        }
    }
    proof {
        assert(all.subrange(0, parts@.len() as int) =~= all);
    }
    out
}

/// The characters of a text.
pub fn chars_of(s: &str) -> (v: Vec<char>)
    ensures
        v@ == s@,
{
    let mut v: Vec<char> = Vec::new();
    for c in it: s.chars()
        invariant
            v@ == s@.subrange(0, it.index()),
            it.seq() == s@,
    {
        v.push(c);
        proof {
            assert(v@ =~= s@.subrange(0, it.index() + 1));
        }
    }
    proof {
        assert(v@ =~= s@);
    }
    v
}

/// The characters from `from` up to `to`, as a text.
pub fn string_of(s: &[char], from: usize, to: usize) -> (out: String)
    requires
        from <= to <= s@.len(),
    ensures
        out@ == s@.subrange(from as int, to as int),
{
    let mut out = String::new();
    let mut i: usize = from;
    while i < to
        invariant
            from <= i <= to <= s@.len(),
            out@ == s@.subrange(from as int, i as int),
        decreases to - i,
    {
        out.push(s[i]);
        i = i + 1;
        proof {
            assert(out@ =~= s@.subrange(from as int, i as int));
        }
    }
    out
}

/// The place behind the decimal digits that begin at `at`.
pub open spec fn digits_end(s: Seq<char>, at: int) -> int
    decreases s.len() - at,
{
    if 0 <= at < s.len() && is_digit(s[at]) {
        digits_end(s, at + 1)
    } else {
        at
    }
}

pub fn skip_digits(s: &[char], at: usize) -> (end: usize)
    requires
        at <= s@.len(),
    ensures
        end as int == digits_end(s@, at as int),
        at <= end <= s@.len(),
{
    let mut i: usize = at;
    while i < s.len() && '0' <= s[i] && s[i] <= '9'
        invariant
            at <= i <= s@.len(),
            digits_end(s@, at as int) == digits_end(s@, i as int),
        decreases s@.len() - i,
    {
        i = i + 1;
    }
    i
}

pub open spec fn all_digits(s: Seq<char>) -> bool {
    forall|i: int| 0 <= i < s.len() ==> is_digit(#[trigger] s[i])
}

/// The number that decimal digits stand for.
pub open spec fn digits_value(s: Seq<char>) -> nat
    decreases s.len(),
{
    if s.len() == 0 {
        0
    } else {
        digits_value(s.drop_last()) * 10 + (s.last() as u32 - 48) as nat
    }
}

pub open spec fn after_plus(s: Seq<char>) -> Seq<char> {
    if s.len() > 0 && s[0] == '+' {
        s.drop_first()
    } else {
        s
    }
}

/// The number that a text stands for, the way the unsigned integers of Rust
/// are read: decimal digits, behind a plus sign or not.
pub open spec fn unsigned(s: Seq<char>) -> Option<nat> {
    let d = after_plus(s);
    if d.len() > 0 && all_digits(d) {
        Some(digits_value(d))
    } else {
        None
    }
}

/// Reads an unsigned number that is at most `max`.
pub fn parse_unsigned(s: &[char], max: u64) -> (n: Option<u64>)
    ensures
        match n {
            Some(v) => unsigned(s@) == Some(v as nat) && v <= max,
            None => match unsigned(s@) {
                Some(v) => v > max,
                None => true,
            },
        },
{
    let from: usize = if s.len() > 0 && s[0] == '+' {
        1
    } else {
        0
    };
    let ghost d = after_plus(s@);
    proof {
        assert(d =~= s@.subrange(from as int, s@.len() as int));
    }
    if from == s.len() {
        return None;
    }
    let mut v: u64 = 0;
    let mut i: usize = from;
    let mut over = false;
    while i < s.len()
        invariant
            from <= i <= s@.len(),
            d == s@.subrange(from as int, s@.len() as int),
            d == after_plus(s@),
            d.len() > 0,
            forall|k: int| 0 <= k < i - from ==> is_digit(#[trigger] d[k]),
            !over ==> v == digits_value(d.subrange(0, i - from)),
            !over ==> v <= max,
            over ==> digits_value(d.subrange(0, i - from)) > max,
        decreases s@.len() - i,
    {
        let c = s[i];
        proof {
            assert(d[i - from] == c);
            assert(d.subrange(0, i - from + 1).drop_last() =~= d.subrange(0, i - from));
            assert(d.subrange(0, i - from + 1).last() == c);
        }
        if !('0' <= c && c <= '9') {
            proof {
                assert(!is_digit(d[i - from]));
            }
            return None;
        }
        let x: u64 = (c as u32 - 48) as u64;
        if over || max < x || v > max / 10 || v * 10 > max - x {
            over = true;
        } else {
            v = v * 10 + x;
        }
        i = i + 1;
    }
    proof {
        assert(d.subrange(0, d.len() as int) =~= d);
    }
    if over {
        None
    } else {
        Some(v)
    }
}

pub proof fn lemma_decimal(n: nat)
    ensures
        all_digits(decimal(n)),
        decimal(n).len() > 0,
        digits_value(decimal(n)) == n,
        vstd::utf8::is_ascii_chars(decimal(n)),
    decreases n,
{
    assert(0 <= n % 10 < 10);
    let d = digit((n % 10) as int);
    assert(is_digit(d) && d as u32 == 48 + n % 10);
    if n < 10 {
        let s = decimal(n);
        assert(s =~= seq![d]);
        assert(s.drop_last() =~= seq![]);
        assert(digits_value(s.drop_last()) == 0);
    } else {
        lemma_decimal(n / 10);
        let s = decimal(n);
        assert(s.drop_last() =~= decimal(n / 10));
    }
}

/// A number written in decimal reads back as that number.
pub proof fn law_decimal_reads_back(n: nat)
    ensures
        unsigned(decimal(n)) == Some(n),
{
    lemma_decimal(n);
    assert(is_digit(decimal(n)[0]));
}

/// Where `pat` first occurs in `s` at or after `from`.
pub open spec fn found_at<T>(s: Seq<T>, pat: Seq<T>, from: int) -> Option<int>
    decreases s.len() + 1 - from,
{
    if from < 0 || from + pat.len() > s.len() {
        None
    } else if s.subrange(from, from + pat.len()) == pat {
        Some(from)
    } else {
        found_at(s, pat, from + 1)
    }
}

/// What `found_at` finds is an occurrence, and it finds one if there is any.
pub proof fn lemma_found_at<T>(s: Seq<T>, pat: Seq<T>, from: int)
    requires
        0 <= from,
    ensures
        match found_at(s, pat, from) {
            Some(i) => from <= i && i + pat.len() <= s.len() && s.subrange(i, i + pat.len()) == pat
                && forall|j: int|
                from <= j < i ==> #[trigger] s.subrange(j, j + pat.len()) != pat,
            None => forall|j: int|
                from <= j && j + pat.len() <= s.len() ==> #[trigger] s.subrange(j, j + pat.len())
                    != pat,
        },
    decreases s.len() + 1 - from,
{
    if from + pat.len() <= s.len() && s.subrange(from, from + pat.len()) != pat {
        lemma_found_at(s, pat, from + 1);
    }
}

/// Whether `pat` stands in `s` at `at`.
pub fn chars_at(s: &[char], at: usize, pat: &[char]) -> (yes: bool)
    requires
        at <= s@.len(),
    ensures
        yes == (at + pat@.len() <= s@.len() && s@.subrange(at as int, at + pat@.len()) == pat@),
{
    let n: usize = s.len();
    if n - at < pat.len() {
        return false;
    }
    let mut i: usize = 0;
    while i < pat.len()
        invariant
            i <= pat@.len(),
            at + pat@.len() <= n,
            n == s@.len(),
            forall|k: int| 0 <= k < i ==> s@[at + k] == pat@[k],
        decreases pat@.len() - i,
    {
        if s[at + i] != pat[i] {
            proof {
                assert(s@.subrange(at as int, at + pat@.len())[i as int] != pat@[i as int]);
            }
            return false;
        }
        i = i + 1;
    }
    proof {
        assert(s@.subrange(at as int, at + pat@.len()) =~= pat@);
    }
    true
}

/// Where `pat` first occurs in `s` at or after `from`.
pub fn find_chars(s: &[char], pat: &[char], from: usize) -> (at: Option<usize>)
    requires
        from <= s@.len(),
    ensures
        match at {
            Some(i) => found_at(s@, pat@, from as int) == Some(i as int) && from <= i && i
                + pat@.len() <= s@.len(),
            None => found_at(s@, pat@, from as int) is None,
        },
{
    let n: usize = s.len();
    let mut i: usize = from;
    while i < n
        invariant
            from <= i <= n,
            n == s@.len(),
            found_at(s@, pat@, from as int) == found_at(s@, pat@, i as int),
        decreases n - i,
    {
        if chars_at(s, i, pat) {
            return Some(i);
        }
        if n - i < pat.len() {
            return None;
        }
        i = i + 1;
    }
    if pat.len() == 0 {
        proof {
            assert(s@.subrange(n as int, n as int) =~= pat@);
        }
        return Some(n);
    }
    None
}

/// Adds a word to a list of them.
pub fn push_word(words: &mut Vec<String>, word: &str)
    ensures
        strings(final(words)@) == strings(old(words)@).push(word@),
{
    let w = word.to_string();
    words.push(w);
    proof {
        assert(strings(words@) =~= strings(old(words)@).push(word@));
    }
}

/// Adds a text to a list of words.
pub fn push_string(words: &mut Vec<String>, word: String)
    ensures
        strings(final(words)@) == strings(old(words)@).push(word@),
{
    let ghost w = word@;
    words.push(word);
    proof {
        assert(strings(words@) =~= strings(old(words)@).push(w));
    }
}

pub fn no_words() -> (words: Vec<String>)
    ensures
        strings(words@) == Seq::<Seq<char>>::empty(),
{
    let words: Vec<String> = Vec::new();
    proof {
        assert(strings(words@) =~= Seq::<Seq<char>>::empty());
    }
    words
}

/// A number is read in base ten, digit by digit: one digit more makes it ten
/// times as much and that digit.  A plus sign in front changes nothing.
pub proof fn law_digits_are_read_in_base_ten(s: Seq<char>, d: char, n: nat)
    requires
        '0' <= d <= '9',
    ensures
        unsigned(seq![d]) == Some((d as u32 - '0' as u32) as nat),
        unsigned(s) == Some(n) ==> unsigned(s.push(d)) == Some(
            n * 10 + (d as u32 - '0' as u32) as nat,
        ),
        !(s.len() > 0 && s[0] == '+') ==> unsigned(seq!['+'] + s) == unsigned(s),
{
    let one = seq![d];
    assert(one[0] == d);
    assert(one.drop_last() =~= seq![]);
    assert(digits_value(one.drop_last()) == 0);
    assert(digits_value(one) == d as u32 - 48);
    if unsigned(s) == Some(n) {
        let before = after_plus(s);
        assert(after_plus(s.push(d)) =~= before.push(d));
        assert(before.push(d).drop_last() =~= before);
        assert forall|i: int| 0 <= i < before.push(d).len() implies is_digit(
            #[trigger] before.push(d)[i],
        ) by {
            if i < before.len() {
                assert(is_digit(before[i]));
            }
        }
    }
    assert((seq!['+'] + s).drop_first() =~= s);
    assert((seq!['+'] + s)[0] == '+');
}

/// What holds anything but digits, behind a plus sign or not, or no digit at
/// all, is no number.
pub proof fn law_what_is_no_number(s: Seq<char>, i: int)
    requires
        0 <= i < s.len(),
        !('0' <= s[i] <= '9'),
        i > 0 || s[i] != '+',
    ensures
        unsigned(s) is None,
        unsigned(seq![]) is None,
        unsigned(seq!['+']) is None,
{
    assert(seq!['+'].drop_first() =~= seq![]);
    if s[0] == '+' {
        assert(s.drop_first()[i - 1] == s[i]);
    }
    assert(!all_digits(after_plus(s)));
}

/// A number is written without a zero in front, unless it is one.
pub proof fn law_no_zero_in_front(n: nat)
    ensures
        n == 0 ==> decimal(n) =~= seq!['0'],
        n > 0 ==> decimal(n)[0] != '0',
    decreases n,
{
    if n >= 10 {
        law_no_zero_in_front(n / 10);
        lemma_decimal(n / 10);
    } else {
        assert(digit(n as int) as u32 == 48 + n);
    }
}

/// The order of texts: the first character in which they differ decides, and
/// what is the beginning of another text comes before it.
pub proof fn law_the_order_of_texts(p: Seq<char>, x: char, a: Seq<char>, y: char, b: Seq<char>)
    ensures
        x != y ==> text_le(p + seq![x] + a, p + seq![y] + b) == (x < y),
        text_le(p, p + b),
        !text_le(p + seq![x] + a, p),
{
    lemma_order_behind(p, p + seq![x] + a, p + seq![y] + b, 0);
    lemma_order_behind(p, p, p + b, 0);
    lemma_order_behind(p, p + seq![x] + a, p, 0);
    assert((p + seq![x] + a)[p.len() as int] == x);
    assert((p + seq![y] + b)[p.len() as int] == y);
}

proof fn lemma_order_behind(p: Seq<char>, a: Seq<char>, b: Seq<char>, i: int)
    requires
        0 <= i <= p.len(),
        a.len() >= p.len(),
        b.len() >= p.len(),
        forall|k: int| 0 <= k < p.len() ==> #[trigger] a[k] == p[k],
        forall|k: int| 0 <= k < p.len() ==> #[trigger] b[k] == p[k],
    ensures
        text_le_from(a, b, i) == text_le_from(a, b, p.len() as int),
    decreases p.len() - i,
{
    if i < p.len() {
        assert(a[i] == b[i]);
        lemma_order_behind(p, a, b, i + 1);
    }
}

/// Small letters and capitals: each is turned into the other of its place in the
/// alphabet, and nothing else changes.
pub proof fn law_letters_and_capitals(c: char)
    ensures
        'a' <= c <= 'z' ==> upper(c) as u32 - 'A' as u32 == c as u32 - 'a' as u32 && lower(c) == c,
        'A' <= c <= 'Z' ==> lower(c) as u32 - 'a' as u32 == c as u32 - 'A' as u32 && upper(c) == c,
        !('a' <= c <= 'z') && !('A' <= c <= 'Z') ==> upper(c) == c && lower(c) == c,
{
}

} // verus!
