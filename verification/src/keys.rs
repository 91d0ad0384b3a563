//! Linux input event codes of the phone's keys, and the names they go by.
//!
//! The matrix keypad (node 1) carries the whole keypad; the power and volume
//! keys live on nodes of their own because they are wired to other
//! controllers.
use vstd::prelude::*;
use vstd::utf8::is_ascii_chars;
use crate::text::{
    is_digit, is_lower, lemma_text_le_reflexive, lemma_text_le_transitive, lemma_text_total,
    lemma_upper_of_lower, lower, same_text, text_at_most, text_le, upper,
};

verus! {

/// (name, input node, key code)
///
/// BACK is the key the layout calls DEL: the phone deletes a character where
/// there is one to delete and goes back where there is not.  The right soft
/// key is another one.  END is the power switch, on the power node: the phone
/// decides from the length of the press what it means.
pub const KEYS: [(&'static str, u32, u16); 34] = [
    ("0", 1, 11),
    ("1", 1, 2),
    ("2", 1, 3),
    ("3", 1, 4),
    ("4", 1, 5),
    ("5", 1, 6),
    ("6", 1, 7),
    ("7", 1, 8),
    ("8", 1, 9),
    ("9", 1, 10),
    ("UP", 1, 103),
    ("DOWN", 1, 108),
    ("LEFT", 1, 105),
    ("RIGHT", 1, 106),
    ("OK", 1, 352),
    ("CENTER", 1, 352),
    ("MENU", 1, 139),
    ("HELP", 1, 138),
    ("CALL", 1, 231),
    ("SEND", 1, 231),
    ("STAR", 1, 522),
    ("POUND", 1, 523),
    ("SOFT_LEFT", 1, 139),
    ("SOFT_RIGHT", 1, 158),
    ("BACK", 1, 48),
    ("DEL", 1, 48),
    ("BACKSPACE", 1, 48),
    ("MESSAGE", 1, 30),
    ("END", 0, 116),
    ("RED", 0, 116),
    ("POWER", 0, 116),
    ("VOLUMEDOWN", 0, 114),
    ("VOLUMEUP", 2, 115),
    ("CAMERA", 2, 212),
];

/// The text in capitals, as Unicode has it.
pub uninterp spec fn uppercased(s: Seq<char>) -> Seq<char>;

/// The text with its ASCII small letters as capitals.
pub open spec fn ascii_upper(s: Seq<char>) -> Seq<char> {
    s.map_values(|c: char| upper(c))
}

/// `str::to_uppercase`: the result depends on the text alone, and of an ASCII
/// text it is the text with each small letter as its capital and every other
/// character as it was.  What Unicode makes of the rest is not spelled out.
#[verifier::external_body]
fn to_uppercase(s: &str) -> (u: String)
    ensures
        u@ == uppercased(s@),
        is_ascii_chars(s@) ==> u@ == ascii_upper(s@),
{
    s.to_uppercase()
}

pub open spec fn named_from(name: Seq<char>, row: int) -> Option<(u32, u16)>
    decreases KEYS@.len() - row,
{
    if row >= KEYS@.len() {
        None
    } else if KEYS@[row].0@ == name {
        Some((KEYS@[row].1, KEYS@[row].2))
    } else {
        named_from(name, row + 1)
    }
}

/// The node and the code of the first key of this very name.
pub open spec fn named(name: Seq<char>) -> Option<(u32, u16)> {
    named_from(name, 0)
}

/// The key whose name is `name`, letter for letter.
pub fn lookup_exact(name: &str) -> (at: Option<(u32, u16)>)
    ensures
        at == named(name@),
{
    let mut row: usize = 0;
    while row < KEYS.len()
        invariant
            row <= KEYS@.len(),
            named(name@) == named_from(name@, row as int),
        decreases KEYS@.len() - row,
    {
        let (n, node, code) = KEYS[row];
        if same_text(n, name) {
            return Some((node, code));
        }
        row = row + 1;
    }
    None
}

/// The node and the code of the key called `name`, in whatever case.
pub fn lookup(name: &str) -> (at: Option<(u32, u16)>)
    ensures
        at == named(uppercased(name@)),
        is_ascii_chars(name@) ==> at == named(ascii_upper(name@)),
{
    let capitals = to_uppercase(name);
    lookup_exact(capitals.as_str())
}

pub open spec fn texts(names: Seq<&'static str>) -> Seq<Seq<char>> {
    names.map_values(|n: &'static str| n@)
}

/// The names of the key table, in its order.
pub open spec fn table_names() -> Seq<Seq<char>> {
    Seq::new(KEYS@.len(), |i: int| KEYS@[i].0@)
}

pub open spec fn in_order(names: Seq<Seq<char>>) -> bool {
    forall|i: int, j: int| 0 <= i <= j < names.len() ==> text_le(names[i], names[j])
}

/// The first place from `i` on whose name comes behind `name`.
pub open spec fn place(names: Seq<Seq<char>>, name: Seq<char>, i: int) -> int
    decreases names.len() - i,
{
    if 0 <= i < names.len() && text_le(names[i], name) {
        place(names, name, i + 1)
    } else {
        i
    }
}

/// The names of the first `rows` rows, each put where it belongs.
pub open spec fn sorted_rows(rows: int) -> Seq<Seq<char>>
    decreases rows,
{
    if rows <= 0 {
        seq![]
    } else {
        let before = sorted_rows(rows - 1);
        let name = table_names()[rows - 1];
        before.insert(place(before, name, 0), name)
    }
}

/// The names of the key table in order.
pub open spec fn sorted_names() -> Seq<Seq<char>> {
    sorted_rows(KEYS@.len() as int)
}

proof fn lemma_place(names: Seq<Seq<char>>, name: Seq<char>, i: int)
    requires
        0 <= i <= names.len(),
    ensures
        i <= place(names, name, i) <= names.len(),
        forall|k: int| i <= k < place(names, name, i) ==> text_le(#[trigger] names[k], name),
        place(names, name, i) < names.len() ==> !text_le(names[place(names, name, i)], name),
    decreases names.len() - i,
{
    if i < names.len() && text_le(names[i], name) {
        lemma_place(names, name, i + 1);
    }
}

proof fn lemma_insert_in_order(names: Seq<Seq<char>>, name: Seq<char>)
    requires
        in_order(names),
    ensures
        in_order(names.insert(place(names, name, 0), name)),
{
    let at = place(names, name, 0);
    let after = names.insert(at, name);
    lemma_place(names, name, 0);
    if at < names.len() {
        lemma_text_total(names[at], name, 0);
    }
    assert forall|i: int, j: int| 0 <= i <= j < after.len() implies text_le(after[i], after[j]) by {
        lemma_text_le_reflexive(name, 0);
        if i == at && j > at {
            assert(after[j] == names[j - 1]);
            assert(text_le(names[at], names[j - 1]));
            lemma_text_le_transitive(name, names[at], names[j - 1], 0);
        } else if i < at && j == at {
            assert(text_le(names[i], name));
        }
    }
}

proof fn lemma_sorted_rows(rows: int)
    requires
        0 <= rows <= KEYS@.len(),
    ensures
        in_order(sorted_rows(rows)),
        sorted_rows(rows).len() == rows,
        sorted_rows(rows).to_multiset() == table_names().subrange(0, rows).to_multiset(),
    decreases rows,
{
    let done = table_names().subrange(0, rows);
    if rows == 0 {
        assert(done =~= seq![]);
    } else {
        lemma_sorted_rows(rows - 1);
        let before = sorted_rows(rows - 1);
        let name = table_names()[rows - 1];
        lemma_place(before, name, 0);
        lemma_insert_in_order(before, name);
        vstd::seq_lib::to_multiset_insert(before, place(before, name, 0), name);
        let short = table_names().subrange(0, rows - 1);
        assert(done =~= short.push(name));
        vstd::seq_lib::to_multiset_build(short, name);
    }
}

/// The listed names are those of the table, each as often as it stands there,
/// and in order.
pub proof fn law_names_are_the_table_in_order()
    ensures
        in_order(sorted_names()),
        sorted_names().to_multiset() == table_names().to_multiset(),
        sorted_names().len() == KEYS@.len(),
{
    lemma_sorted_rows(KEYS@.len() as int);
    assert(table_names().subrange(0, KEYS@.len() as int) =~= table_names());
}

/// Every key name, in order.
pub fn names() -> (v: Vec<&'static str>)
    ensures
        texts(v@) == sorted_names(),
        v@.len() == KEYS@.len(),
{
    let mut v: Vec<&'static str> = Vec::new();
    let mut row: usize = 0;
    proof {
        assert(texts(v@) =~= sorted_rows(0));
    }
    while row < KEYS.len()
        invariant
            row <= KEYS@.len(),
            texts(v@) == sorted_rows(row as int),
            v@.len() == row,
        decreases KEYS@.len() - row,
    {
        let (n, _node, _code) = KEYS[row];
        let ghost before = texts(v@);
        let mut at: usize = 0;
        while at < v.len() && text_at_most(v[at], n)
            invariant
                at <= v@.len(),
                before == texts(v@),
                place(before, n@, 0) == place(before, n@, at as int),
            decreases v@.len() - at,
        {
            proof {
                assert(before[at as int] == v@[at as int]@);
            }
            at = at + 1;
        }
        proof {
            if at < v@.len() {
                assert(before[at as int] == v@[at as int]@);
            }
        }
        v.insert(at, n);
        row = row + 1;
        proof {
            assert(texts(v@) =~= before.insert(at as int, n@));
        }
    }
    v
}

/// The device key that a terminal keystroke stands for.
pub open spec fn keystroke(seq: Seq<char>) -> Option<Seq<char>> {
    if seq == "\x1b[A"@ {
        Some("UP"@)
    } else if seq == "\x1b[B"@ {
        Some("DOWN"@)
    } else if seq == "\x1b[C"@ {
        Some("RIGHT"@)
    } else if seq == "\x1b[D"@ {
        Some("LEFT"@)
    } else if seq == "\r"@ || seq == "\n"@ {
        Some("OK"@)
    } else if seq == "\x7f"@ || seq == "\x08"@ {
        Some("BACK"@)
    } else if seq == "*"@ {
        Some("STAR"@)
    } else if seq == "#"@ {
        Some("POUND"@)
    } else if seq == "\x1b[2~"@ {
        Some("SOFT_LEFT"@)
    } else if seq == "\x1b[5~"@ {
        Some("SOFT_RIGHT"@)
    } else if seq == "\x1b[3~"@ {
        Some("CALL"@)
    } else if seq == "\x1b[6~"@ {
        Some("END"@)
    } else if seq == "m"@ {
        Some("MENU"@)
    } else if seq == "-"@ {
        Some("VOLUMEDOWN"@)
    } else if seq == "+"@ {
        Some("VOLUMEUP"@)
    } else if seq.len() == 1 && is_digit(seq[0]) {
        Some(seq)
    } else {
        None
    }
}

/// Terminal keystrokes to device keys.
///
/// The phone keys that no keyboard has sit on the navigation cluster: Ins,
/// PgUp, Del and PgDn.  Those mean nothing to a text field, so they navigate
/// in every mode, as the arrows do.
pub fn from_keystroke(seq: &str) -> (key: Option<&'static str>)
    ensures
        match key {
            Some(k) => keystroke(seq@) == Some(k@),
            None => keystroke(seq@) is None,
        },
{
    if same_text(seq, "\x1b[A") {
        return Some("UP");
    }
    if same_text(seq, "\x1b[B") {
        return Some("DOWN");
    }
    if same_text(seq, "\x1b[C") {
        return Some("RIGHT");
    }
    if same_text(seq, "\x1b[D") {
        return Some("LEFT");
    }
    if same_text(seq, "\r") || same_text(seq, "\n") {
        return Some("OK");
    }
    if same_text(seq, "\x7f") || same_text(seq, "\x08") {
        return Some("BACK");
    }
    if same_text(seq, "*") {
        return Some("STAR");
    }
    if same_text(seq, "#") {
        return Some("POUND");
    }
    if same_text(seq, "\x1b[2~") {
        return Some("SOFT_LEFT");
    }
    if same_text(seq, "\x1b[5~") {
        return Some("SOFT_RIGHT");
    }
    if same_text(seq, "\x1b[3~") {
        return Some("CALL");
    }
    if same_text(seq, "\x1b[6~") {
        return Some("END");
    }
    if same_text(seq, "m") {
        return Some("MENU");
    }
    if same_text(seq, "-") {
        return Some("VOLUMEDOWN");
    }
    if same_text(seq, "+") {
        return Some("VOLUMEUP");
    }
    if seq.unicode_len() == 1 && '0' <= seq.get_char(0) && seq.get_char(0) <= '9' {
        let d: usize = (seq.get_char(0) as u8 - 48) as usize;
        proof {
            lemma_digit_rows(d as int);
            assert(KEYS@[d as int].0@ =~= seq@);
        }
        return Some(KEYS[d].0);
    }
    None
}

/// The first ten rows of the table are the digits in order.
proof fn lemma_digit_rows(d: int)
    requires
        0 <= d < 10,
    ensures
        KEYS@[d].0@ == seq![(48 + d) as u8 as char],
{
    reveal_strlit("0");
    reveal_strlit("1");
    reveal_strlit("2");
    reveal_strlit("3");
    reveal_strlit("4");
    reveal_strlit("5");
    reveal_strlit("6");
    reveal_strlit("7");
    reveal_strlit("8");
    reveal_strlit("9");
    assert(KEYS@[d].0@ =~= seq![(48 + d) as u8 as char]);
}

/// A key is found under its name however its ASCII letters are cased.
pub proof fn law_lookup_ignores_case(a: Seq<char>, b: Seq<char>)
    requires
        a.map_values(|c: char| lower(c)) == b.map_values(|c: char| lower(c)),
    ensures
        named(ascii_upper(a)) == named(ascii_upper(b)),
{
    let la = a.map_values(|c: char| lower(c));
    let lb = b.map_values(|c: char| lower(c));
    assert(a.len() == la.len() && b.len() == lb.len());
    assert forall|i: int| 0 <= i < a.len() implies upper(a[i]) == upper(b[i]) by {
        assert(la[i] == lower(a[i]));
        assert(lb[i] == lower(b[i]));
        lemma_upper_of_lower(a[i]);
        lemma_upper_of_lower(b[i]);
    }
    assert(ascii_upper(a) =~= ascii_upper(b));
}

/// Tells the names of the table apart: by length, first and last character.
spec fn mark(s: Seq<char>) -> int {
    s.len() * 1000000 + (s[0] as int) * 1000 + s[s.len() - 1] as int
}

/// The row whose name has this mark.
spec fn row_of(m: int) -> int {
    if m == 1048048 {
        0
    } else if m == 1049049 {
        1
    } else if m == 1050050 {
        2
    } else if m == 1051051 {
        3
    } else if m == 1052052 {
        4
    } else if m == 1053053 {
        5
    } else if m == 1054054 {
        6
    } else if m == 1055055 {
        7
    } else if m == 1056056 {
        8
    } else if m == 1057057 {
        9
    } else if m == 2085080 {
        10
    } else if m == 4068078 {
        11
    } else if m == 4076084 {
        12
    } else if m == 5082084 {
        13
    } else if m == 2079075 {
        14
    } else if m == 6067082 {
        15
    } else if m == 4077085 {
        16
    } else if m == 4072080 {
        17
    } else if m == 4067076 {
        18
    } else if m == 4083068 {
        19
    } else if m == 4083082 {
        20
    } else if m == 5080068 {
        21
    } else if m == 9083084 {
        22
    } else if m == 10083084 {
        23
    } else if m == 4066075 {
        24
    } else if m == 3068076 {
        25
    } else if m == 9066069 {
        26
    } else if m == 7077069 {
        27
    } else if m == 3069068 {
        28
    } else if m == 3082068 {
        29
    } else if m == 5080082 {
        30
    } else if m == 10086078 {
        31
    } else if m == 8086080 {
        32
    } else if m == 6067065 {
        33
    } else {
        -1
    }
}

proof fn lemma_names(row: int)
    requires
        0 <= row < KEYS@.len(),
    ensures
        row_of(mark(KEYS@[row].0@)) == row,
        forall|i: int|
            0 <= i < KEYS@[row].0@.len() ==> !is_lower(#[trigger] KEYS@[row].0@[i]),
        is_ascii_chars(KEYS@[row].0@),
{
    reveal_strlit("0");
    reveal_strlit("1");
    reveal_strlit("2");
    reveal_strlit("3");
    reveal_strlit("4");
    reveal_strlit("5");
    reveal_strlit("6");
    reveal_strlit("7");
    reveal_strlit("8");
    reveal_strlit("9");
    reveal_strlit("UP");
    reveal_strlit("DOWN");
    reveal_strlit("LEFT");
    reveal_strlit("RIGHT");
    reveal_strlit("OK");
    reveal_strlit("CENTER");
    reveal_strlit("MENU");
    reveal_strlit("HELP");
    reveal_strlit("CALL");
    reveal_strlit("SEND");
    reveal_strlit("STAR");
    reveal_strlit("POUND");
    reveal_strlit("SOFT_LEFT");
    reveal_strlit("SOFT_RIGHT");
    reveal_strlit("BACK");
    reveal_strlit("DEL");
    reveal_strlit("BACKSPACE");
    reveal_strlit("MESSAGE");
    reveal_strlit("END");
    reveal_strlit("RED");
    reveal_strlit("POWER");
    reveal_strlit("VOLUMEDOWN");
    reveal_strlit("VOLUMEUP");
    reveal_strlit("CAMERA");
    if row == 0 {
    } else if row == 1 {
    } else if row == 2 {
    } else if row == 3 {
    } else if row == 4 {
    } else if row == 5 {
    } else if row == 6 {
    } else if row == 7 {
    } else if row == 8 {
    } else if row == 9 {
    } else if row == 10 {
    } else if row == 11 {
    } else if row == 12 {
    } else if row == 13 {
    } else if row == 14 {
    } else if row == 15 {
    } else if row == 16 {
    } else if row == 17 {
    } else if row == 18 {
    } else if row == 19 {
    } else if row == 20 {
    } else if row == 21 {
    } else if row == 22 {
    } else if row == 23 {
    } else if row == 24 {
    } else if row == 25 {
    } else if row == 26 {
    } else if row == 27 {
    } else if row == 28 {
    } else if row == 29 {
    } else if row == 30 {
    } else if row == 31 {
    } else if row == 32 {
    } else if row == 33 {
    }
}

proof fn lemma_found_from(row: int, from: int)
    requires
        0 <= from <= row < KEYS@.len(),
    ensures
        named_from(KEYS@[row].0@, from) == Some((KEYS@[row].1, KEYS@[row].2)),
    decreases row - from,
{
    if from < row {
        lemma_names(row);
        lemma_names(from);
        lemma_found_from(row, from + 1);
    }
}

/// Every key of the table is found under its name, spelled in any case.
pub proof fn law_every_key_is_found(row: int, name: Seq<char>)
    requires
        0 <= row < KEYS@.len(),
        ascii_upper(name) == KEYS@[row].0@,
    ensures
        named(ascii_upper(name)) == Some((KEYS@[row].1, KEYS@[row].2)),
{
    lemma_found_from(row, 0);
}

/// Looking a key up needs no capitals of its own: each name of the table is in
/// capitals already, and so stands for itself.
pub proof fn law_table_names_are_capitals(row: int)
    requires
        0 <= row < KEYS@.len(),
    ensures
        is_ascii_chars(KEYS@[row].0@),
        ascii_upper(KEYS@[row].0@) == KEYS@[row].0@,
{
    lemma_names(row);
    assert(ascii_upper(KEYS@[row].0@) =~= KEYS@[row].0@);
}

/// The table has a key of each one-digit name.
pub proof fn lemma_digit_is_a_key(name: Seq<char>)
    requires
        name.len() == 1,
        is_digit(name[0]),
    ensures
        named(name) is Some,
        name != "POUND"@,
{
    reveal_strlit("POUND");
    let d = name[0] as int - 48;
    lemma_digit_rows(d);
    lemma_found_from(d, 0);
    assert(KEYS@[d].0@ =~= name);
}

/// Every key that a keystroke stands for is a key of the table.
pub proof fn law_keystrokes_name_real_keys(seq: Seq<char>)
    ensures
        keystroke(seq) matches Some(k) ==> named(k) is Some,
        named("OK"@) is Some && named("POUND"@) is Some && named("DEL"@) is Some,
{
    lemma_found_from(10, 0);
    lemma_found_from(11, 0);
    lemma_found_from(12, 0);
    lemma_found_from(13, 0);
    lemma_found_from(14, 0);
    lemma_found_from(16, 0);
    lemma_found_from(18, 0);
    lemma_found_from(20, 0);
    lemma_found_from(21, 0);
    lemma_found_from(22, 0);
    lemma_found_from(23, 0);
    lemma_found_from(24, 0);
    lemma_found_from(25, 0);
    lemma_found_from(28, 0);
    lemma_found_from(31, 0);
    lemma_found_from(32, 0);
    if seq.len() == 1 && is_digit(seq[0]) {
        lemma_digit_is_a_key(seq);
    }
}

/// What each name is to the kernel: the node its key is wired to, and the code
/// of the key there.
pub proof fn law_the_codes_of_the_keys()
    ensures
        named("0"@) == Some((1u32, 11u16)),
        named("1"@) == Some((1u32, 2u16)),
        named("2"@) == Some((1u32, 3u16)),
        named("3"@) == Some((1u32, 4u16)),
        named("4"@) == Some((1u32, 5u16)),
        named("5"@) == Some((1u32, 6u16)),
        named("6"@) == Some((1u32, 7u16)),
        named("7"@) == Some((1u32, 8u16)),
        named("8"@) == Some((1u32, 9u16)),
        named("9"@) == Some((1u32, 10u16)),
        named("UP"@) == Some((1u32, 103u16)),
        named("DOWN"@) == Some((1u32, 108u16)),
        named("LEFT"@) == Some((1u32, 105u16)),
        named("RIGHT"@) == Some((1u32, 106u16)),
        named("OK"@) == Some((1u32, 352u16)),
        named("CENTER"@) == Some((1u32, 352u16)),
        named("MENU"@) == Some((1u32, 139u16)),
        named("HELP"@) == Some((1u32, 138u16)),
        named("CALL"@) == Some((1u32, 231u16)),
        named("SEND"@) == Some((1u32, 231u16)),
        named("STAR"@) == Some((1u32, 522u16)),
        named("POUND"@) == Some((1u32, 523u16)),
        named("SOFT_LEFT"@) == Some((1u32, 139u16)),
        named("SOFT_RIGHT"@) == Some((1u32, 158u16)),
        named("BACK"@) == Some((1u32, 48u16)),
        named("DEL"@) == Some((1u32, 48u16)),
        named("BACKSPACE"@) == Some((1u32, 48u16)),
        named("MESSAGE"@) == Some((1u32, 30u16)),
        named("END"@) == Some((0u32, 116u16)),
        named("RED"@) == Some((0u32, 116u16)),
        named("POWER"@) == Some((0u32, 116u16)),
        named("VOLUMEDOWN"@) == Some((0u32, 114u16)),
        named("VOLUMEUP"@) == Some((2u32, 115u16)),
        named("CAMERA"@) == Some((2u32, 212u16)),
{
    lemma_found_from(0, 0);
    lemma_found_from(1, 0);
    lemma_found_from(2, 0);
    lemma_found_from(3, 0);
    lemma_found_from(4, 0);
    lemma_found_from(5, 0);
    lemma_found_from(6, 0);
    lemma_found_from(7, 0);
    lemma_found_from(8, 0);
    lemma_found_from(9, 0);
    lemma_found_from(10, 0);
    lemma_found_from(11, 0);
    lemma_found_from(12, 0);
    lemma_found_from(13, 0);
    lemma_found_from(14, 0);
    lemma_found_from(15, 0);
    lemma_found_from(16, 0);
    lemma_found_from(17, 0);
    lemma_found_from(18, 0);
    lemma_found_from(19, 0);
    lemma_found_from(20, 0);
    lemma_found_from(21, 0);
    lemma_found_from(22, 0);
    lemma_found_from(23, 0);
    lemma_found_from(24, 0);
    lemma_found_from(25, 0);
    lemma_found_from(26, 0);
    lemma_found_from(27, 0);
    lemma_found_from(28, 0);
    lemma_found_from(29, 0);
    lemma_found_from(30, 0);
    lemma_found_from(31, 0);
    lemma_found_from(32, 0);
    lemma_found_from(33, 0);
}

proof fn lemma_sequences()
    ensures
        "\x1b[A"@ == seq!['\x1b', '[', 'A'],
        "\x1b[B"@ == seq!['\x1b', '[', 'B'],
        "\x1b[C"@ == seq!['\x1b', '[', 'C'],
        "\x1b[D"@ == seq!['\x1b', '[', 'D'],
        "\x1b[2~"@ == seq!['\x1b', '[', '2', '~'],
        "\x1b[5~"@ == seq!['\x1b', '[', '5', '~'],
        "\x1b[3~"@ == seq!['\x1b', '[', '3', '~'],
        "\x1b[6~"@ == seq!['\x1b', '[', '6', '~'],
        "\r"@ == seq!['\r'],
        "\n"@ == seq!['\n'],
        "\x7f"@ == seq!['\x7f'],
        "\x08"@ == seq!['\x08'],
        "*"@ == seq!['*'],
        "#"@ == seq!['#'],
        "m"@ == seq!['m'],
        "-"@ == seq!['-'],
        "+"@ == seq!['+'],
{
    reveal_strlit("\x1b[A");
    reveal_strlit("\x1b[B");
    reveal_strlit("\x1b[C");
    reveal_strlit("\x1b[D");
    reveal_strlit("*");
    reveal_strlit("#");
    reveal_strlit("\x1b[2~");
    reveal_strlit("\x1b[5~");
    reveal_strlit("\x1b[3~");
    reveal_strlit("\x1b[6~");
    reveal_strlit("m");
    reveal_strlit("-");
    reveal_strlit("+");
    reveal_strlit("\r");
    reveal_strlit("\n");
    reveal_strlit("\x7f");
    reveal_strlit("\x08");
    assert("\x1b[A"@ =~= seq!['\x1b', '[', 'A']);
    assert("\x1b[B"@ =~= seq!['\x1b', '[', 'B']);
    assert("\x1b[C"@ =~= seq!['\x1b', '[', 'C']);
    assert("\x1b[D"@ =~= seq!['\x1b', '[', 'D']);
    assert("\x1b[2~"@ =~= seq!['\x1b', '[', '2', '~']);
    assert("\x1b[5~"@ =~= seq!['\x1b', '[', '5', '~']);
    assert("\x1b[3~"@ =~= seq!['\x1b', '[', '3', '~']);
    assert("\x1b[6~"@ =~= seq!['\x1b', '[', '6', '~']);
    assert("\r"@ =~= seq!['\r']);
    assert("\n"@ =~= seq!['\n']);
    assert("\x7f"@ =~= seq!['\x7f']);
    assert("\x08"@ =~= seq!['\x08']);
    assert("*"@ =~= seq!['*']);
    assert("#"@ =~= seq!['#']);
    assert("m"@ =~= seq!['m']);
    assert("-"@ =~= seq!['-']);
    assert("+"@ =~= seq!['+']);
}

/// A digit is its own key: its keystroke names the key that bears it, and that
/// key is in the table, with the code that follows the digit (0 counts as ten).
pub proof fn law_a_digit_is_its_own_key(d: char)
    requires
        '0' <= d <= '9',
    ensures
        keystroke(seq![d]) == Some(seq![d]),
        named(seq![d]) == Some(
            (
                1u32,
                if d == '0' {
                    11u16
                } else {
                    (d as u32 - 47) as u16
                },
            ),
        ),
{
    lemma_sequences();
    let s = seq![d];
    assert(s[0] == d && s.len() == 1);
    let row = d as int - 48;
    lemma_digit_rows(row);
    assert(KEYS@[row].0@ =~= s);
    lemma_found_from(row, 0);
}

/// The escape sequences of the arrows and of the navigation cluster, each by
/// its letter or its number, and no other sequence of that shape.
pub proof fn law_escape_sequences_by_their_end(c: char)
    ensures
        keystroke(seq!['\x1b', '[', c]) == (if c == 'A' {
            Some("UP"@)
        } else if c == 'B' {
            Some("DOWN"@)
        } else if c == 'C' {
            Some("RIGHT"@)
        } else if c == 'D' {
            Some("LEFT"@)
        } else {
            None
        }),
        keystroke(seq!['\x1b', '[', c, '~']) == (if c == '2' {
            Some("SOFT_LEFT"@)
        } else if c == '3' {
            Some("CALL"@)
        } else if c == '5' {
            Some("SOFT_RIGHT"@)
        } else if c == '6' {
            Some("END"@)
        } else {
            None
        }),
{
    lemma_sequences();
    let three = seq!['\x1b', '[', c];
    let four = seq!['\x1b', '[', c, '~'];
    assert(three[2] == c && four[2] == c && three.len() == 3 && four.len() == 4);
    assert(three[0] == '\x1b' && four[0] == '\x1b');
    assert(seq!['\x1b', '[', 'A'][2] == 'A');
    assert(seq!['\x1b', '[', 'B'][2] == 'B');
    assert(seq!['\x1b', '[', 'C'][2] == 'C');
    assert(seq!['\x1b', '[', 'D'][2] == 'D');
    assert(seq!['\x1b', '[', '2', '~'][2] == '2');
    assert(seq!['\x1b', '[', '3', '~'][2] == '3');
    assert(seq!['\x1b', '[', '5', '~'][2] == '5');
    assert(seq!['\x1b', '[', '6', '~'][2] == '6');
}

/// Every keystroke of one character: digits are their own keys, and of the rest
/// only these mean a key.
pub proof fn law_single_keystrokes(c: char)
    requires
        !('0' <= c <= '9'),
    ensures
        keystroke(seq![c]) == (if c == '\r' || c == '\n' {
            Some("OK"@)
        } else if c == '\x7f' || c == '\x08' {
            Some("BACK"@)
        } else if c == '*' {
            Some("STAR"@)
        } else if c == '#' {
            Some("POUND"@)
        } else if c == 'm' {
            Some("MENU"@)
        } else if c == '-' {
            Some("VOLUMEDOWN"@)
        } else if c == '+' {
            Some("VOLUMEUP"@)
        } else {
            None
        }),
{
    lemma_sequences();
    let s = seq![c];
    assert(s[0] == c && s.len() == 1);
    assert(seq!['\r'][0] == '\r' && seq!['\n'][0] == '\n');
    assert(seq!['\x7f'][0] == '\x7f' && seq!['\x08'][0] == '\x08');
    assert(seq!['*'][0] == '*' && seq!['#'][0] == '#' && seq!['m'][0] == 'm');
    assert(seq!['-'][0] == '-' && seq!['+'][0] == '+');
}

/// What is neither one character nor an escape sequence of three or four means
/// no key.
pub proof fn law_other_keystrokes_mean_nothing(seq: Seq<char>)
    requires
        seq.len() != 1,
        !(seq.len() == 3 || seq.len() == 4) || seq[0] != '\x1b' || seq[1] != '[' || (seq.len() == 4
            && seq[3] != '~'),
    ensures
        keystroke(seq) is None,
{
    lemma_sequences();
}

/// Only what is a name of the table names a key.
pub proof fn law_only_the_table_names_keys(name: Seq<char>)
    ensures
        named(name) is Some <==> exists|row: int|
            0 <= row < KEYS@.len() && #[trigger] KEYS@[row].0@ == name,
{
    lemma_named_from(name, 0);
}

proof fn lemma_named_from(name: Seq<char>, from: int)
    requires
        0 <= from <= KEYS@.len(),
    ensures
        named_from(name, from) is Some <==> exists|row: int|
            from <= row < KEYS@.len() && #[trigger] KEYS@[row].0@ == name,
    decreases KEYS@.len() - from,
{
    if from < KEYS@.len() {
        lemma_named_from(name, from + 1);
        if KEYS@[from].0@ != name && exists|row: int|
            from <= row < KEYS@.len() && #[trigger] KEYS@[row].0@ == name {
            let row = choose|row: int|
                from <= row < KEYS@.len() && #[trigger] KEYS@[row].0@ == name;
            assert(from + 1 <= row);
        }
    }
}

} // verus!
