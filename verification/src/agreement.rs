//! What the two ends of adb agree on: each command that the host sends means to
//! the pump what was asked for, and what the phone says is taken for what it is.
use vstd::prelude::*;
use crate::adb::{
    backlight, is_device_line, key_command, lists_device, stream_command, REMOTE_PUMP,
};
use crate::controller::key_line;
use crate::keys::{ascii_upper, law_every_key_is_found, named, KEYS};
use crate::pump::{
    le32, png_tail, pressed_by, request_bytes, stats_text, told, Backend, KeyPress, Setup, Shift,
    Told,
};
use crate::stream::{chunk_bytes, is_png, law_chunks_make_a_file, le_word, signature, Chunk};
use crate::text::{
    decimal, digits_value, is_digit, joined, law_decimal_reads_back, lemma_decimal, unsigned,
};
use crate::words::{
    all_white, is_white, is_word, law_pieces_are_what_was_joined, law_trimming_leaves_the_text,
    law_words_stand_between_white_space, pieces, trimmed, words_of,
};

verus! {

proof fn lemma_pump_words()
    ensures
        "5000"@ == seq!['5', '0', '0', '0'],
        unsigned("5000"@) == Some(5000nat),
        "5000"@ != "probe"@ && "5000"@ != "control"@ && "5000"@ != "key"@,
        "key"@ != "probe"@ && "key"@ != "control"@,
        "raw"@ != "png"@,
        "1"@ != "0"@,
        "ipc"@ != "exec"@,
{
    reveal_strlit("5000");
    reveal_strlit("probe");
    reveal_strlit("control");
    reveal_strlit("key");
    reveal_strlit("raw");
    reveal_strlit("png");
    reveal_strlit("1");
    reveal_strlit("0");
    reveal_strlit("ipc");
    reveal_strlit("exec");
    let s = "5000"@;
    assert(s =~= seq!['5', '0', '0', '0']);
    assert("probe"@[0] == 'p' && "control"@[0] == 'c' && "key"@[0] == 'k');
    assert("raw"@[0] == 'r' && "png"@[0] == 'p' && "1"@[0] == '1' && "0"@[0] == '0');
    assert("ipc"@[0] == 'i' && "exec"@[0] == 'e');
    assert(s.drop_last() =~= seq!['5', '0', '0']);
    assert(s.drop_last().drop_last() =~= seq!['5', '0']);
    assert(s.drop_last().drop_last().drop_last() =~= seq!['5']);
    assert(s.drop_last().drop_last().drop_last().drop_last() =~= seq![]);
    reveal_with_fuel(digits_value, 6);
    assert(digits_value(s) == 5000);
    assert forall|i: int| 0 <= i < s.len() implies is_digit(#[trigger] s[i]) by {}
}

/// A stream that the host starts is the one the pump runs: of the display that
/// was asked for, in the format that was asked for, of as many frames, without
/// an end for 0, and capped at the rate that was asked for.
pub proof fn law_the_pump_streams_what_was_asked_for(
    display: u32,
    png: bool,
    limit: u64,
    fps: u32,
)
    ensures
        ({
            let command = stream_command(display, png, limit, fps);
            &&& command.len() == 9
            &&& command[0] == "exec-out"@
            &&& command[1] == REMOTE_PUMP@
            &&& told(command.skip(2)) == Told::Run(
                Setup {
                    delay_us: 5000,
                    display,
                    png,
                    guard: true,
                    limit: if limit == 0 {
                        None
                    } else {
                        Some(limit)
                    },
                    backend: Backend::Ipc,
                    max_fps: fps,
                    tag: None,
                },
            )
        }),
{
    lemma_pump_words();
    law_decimal_reads_back(display as nat);
    law_decimal_reads_back(limit as nat);
    law_decimal_reads_back(fps as nat);
    let command = stream_command(display, png, limit, fps);
    let args = command.skip(2);
    assert(args.len() == 7);
    assert(args[0] == "5000"@);
    assert(args[1] == decimal(display as nat));
    assert(args[2] == (if png {
        "png"@
    } else {
        "raw"@
    }));
    assert(args[3] == "1"@);
    assert(args[4] == decimal(limit as nat));
    assert(args[5] == "ipc"@);
    assert(args[6] == decimal(fps as nat));
}

/// A key press that the host commands is the one the pump makes: on the node
/// and of the code that were asked for, held for fifty milliseconds.
pub proof fn law_the_pump_presses_what_was_asked_for(node: u32, code: u16)
    ensures
        ({
            let command = key_command((node, code));
            &&& command.len() == 5
            &&& command[0] == "shell"@
            &&& command[1] == REMOTE_PUMP@
            &&& told(command.skip(2)) == Told::Key(KeyPress { node, code, hold_ms: 50 })
        }),
{
    lemma_pump_words();
    law_decimal_reads_back(node as nat);
    law_decimal_reads_back(code as nat);
    let args = key_command((node, code)).skip(2);
    assert(args.len() == 3);
    assert(args[0] == "key"@);
    assert(args[1] == decimal(node as nat));
    assert(args[2] == decimal(code as nat));
}

/// For every key of the table, in whatever case its name is written, the
/// command sent for the name presses that key's own code on its own node.
pub proof fn law_a_named_key_is_pressed_on_its_node(row: int, name: Seq<char>)
    requires
        0 <= row < KEYS@.len(),
        ascii_upper(name) == KEYS@[row].0@,
    ensures
        named(ascii_upper(name)) matches Some(key) && told(key_command(key).skip(2)) == Told::Key(
            KeyPress { node: KEYS@[row].1, code: KEYS@[row].2, hold_ms: 50 },
        ),
{
    law_every_key_is_found(row, name);
    law_the_pump_presses_what_was_asked_for(KEYS@[row].1, KEYS@[row].2);
}

proof fn lemma_decimal_is_a_word(n: nat)
    ensures
        is_word(decimal(n)),
{
    lemma_decimal(n);
    assert forall|i: int| 0 <= i < decimal(n).len() implies !is_white(#[trigger] decimal(n)[i]) by {
        assert(is_digit(decimal(n)[i]));
    }
}

proof fn lemma_two_words(a: Seq<char>, b: Seq<char>, gap: Seq<char>)
    ensures
        joined(seq![a, b], gap) == a + gap + b,
        joined(seq![a, b], gap).len() == a.len() + gap.len() + b.len(),
{
    assert(seq![a, b].drop_last() =~= seq![a]);
    assert(joined(seq![a], gap) == a);
}

/// A line of the control channel presses the key it was written for, held as
/// long as keys are.
pub proof fn law_a_control_line_presses_its_key(node: u32, code: u16)
    ensures
        pressed_by(key_line((node, code))) == Some(KeyPress { node, code, hold_ms: 50 }),
{
    let a = decimal(node as nat);
    let b = decimal(code as nat);
    reveal_strlit(" ");
    reveal_strlit("\n");
    assert(" "@ =~= seq![' ']);
    assert("\n"@ =~= seq!['\n']);
    lemma_decimal_is_a_word(node as nat);
    lemma_decimal_is_a_word(code as nat);
    lemma_two_words(a, b, " "@);
    let words = seq![a, b];
    assert forall|i: int| 0 <= i < words.len() implies is_word(#[trigger] words[i]) by {}
    law_words_stand_between_white_space(seq![], words, " "@, "\n"@);
    assert(seq![] + joined(words, " "@) + "\n"@ =~= key_line((node, code)));
    law_decimal_reads_back(node as nat);
    law_decimal_reads_back(code as nat);
}

/// A line that says how long to hold the key is obeyed, with any white space
/// between its words.
pub proof fn law_a_control_line_says_how_long(
    node: u32,
    code: u16,
    hold: u64,
    lead: Seq<char>,
    gap: Seq<char>,
    trail: Seq<char>,
)
    requires
        all_white(lead),
        all_white(gap),
        gap.len() > 0,
        all_white(trail),
    ensures
        pressed_by(
            lead + joined(
                seq![decimal(node as nat), decimal(code as nat), decimal(hold as nat)],
                gap,
            ) + trail,
        ) == Some(KeyPress { node, code, hold_ms: hold }),
{
    lemma_decimal_is_a_word(node as nat);
    lemma_decimal_is_a_word(code as nat);
    lemma_decimal_is_a_word(hold as nat);
    let words = seq![decimal(node as nat), decimal(code as nat), decimal(hold as nat)];
    assert forall|i: int| 0 <= i < words.len() implies is_word(#[trigger] words[i]) by {}
    law_words_stand_between_white_space(lead, words, gap, trail);
    law_decimal_reads_back(node as nat);
    law_decimal_reads_back(code as nat);
    law_decimal_reads_back(hold as nat);
}

/// A line of less than two words presses nothing.
pub proof fn law_a_short_control_line_presses_nothing(lead: Seq<char>, word: Seq<char>, trail: Seq<char>)
    requires
        all_white(lead),
        is_word(word),
        all_white(trail),
    ensures
        pressed_by(lead) is None,
        pressed_by(lead + word + trail) is None,
{
    let gap = seq![' '];
    assert forall|i: int| 0 <= i < gap.len() implies is_white(#[trigger] gap[i]) by {}
    law_words_stand_between_white_space(lead, seq![], gap, seq![]);
    assert(joined(Seq::<Seq<char>>::empty(), gap) =~= seq![]);
    assert(lead + joined(Seq::<Seq<char>>::empty(), gap) + seq![] =~= lead);
    let one = seq![word];
    assert forall|i: int| 0 <= i < one.len() implies is_word(#[trigger] one[i]) by {}
    law_words_stand_between_white_space(lead, one, gap, trail);
    assert(joined(one, gap) == word);
}

/// A phone is listed as ready exactly where the second word of its line is
/// `device`, whatever the heading and the name of the phone are.
pub proof fn law_a_listed_phone_is_ready(
    heading: Seq<char>,
    serial: Seq<char>,
    state: Seq<char>,
    gap: Seq<char>,
)
    requires
        is_word(serial),
        is_word(state),
        all_white(gap),
        gap.len() > 0,
        forall|k: int| 0 <= k < heading.len() ==> #[trigger] heading[k] != '\n',
        forall|k: int| 0 <= k < gap.len() ==> #[trigger] gap[k] != '\n',
    ensures
        lists_device(heading + seq!['\n'] + (serial + gap + state)) == (state == "device"@),
{
    let line = serial + gap + state;
    let parts = seq![heading, line];
    let words = seq![serial, state];
    assert forall|i: int| 0 <= i < words.len() implies is_word(#[trigger] words[i]) by {}
    law_words_stand_between_white_space(seq![], words, gap, seq![]);
    lemma_two_words(serial, state, gap);
    assert(seq![] + joined(words, gap) + seq![] =~= line);
    assert forall|k: int| 0 <= k < line.len() implies #[trigger] line[k] != '\n' by {
        if k < serial.len() {
            assert(!is_white(serial[k]));
        } else if k < serial.len() + gap.len() {
            assert(gap[k - serial.len()] != '\n');
        } else {
            assert(!is_white(state[k - serial.len() - gap.len()]));
        }
    }
    assert forall|i: int, k: int| 0 <= i < parts.len() && 0 <= k < parts[i].len() implies
        #[trigger] parts[i][k] != '\n' by {
        if i == 0 {
            assert(heading[k] != '\n');
        } else {
            assert(line[k] != '\n');
        }
    }
    law_pieces_are_what_was_joined(parts, '\n');
    lemma_two_words(heading, line, seq!['\n']);
    let out = heading + seq!['\n'] + line;
    assert(pieces(out, '\n') == parts);
    assert(words_of(line) == words);
    assert(is_device_line(line) == (state == "device"@));
    if state == "device"@ {
        assert(is_device_line(parts[1]));
    }
}

/// The brightness that the phone prints is read as the number it is, with white
/// space around it, and below zero too.
pub proof fn law_brightness_reads_back(n: nat, lead: Seq<char>, trail: Seq<char>)
    requires
        all_white(lead),
        all_white(trail),
        n <= 0x7fff_ffff,
    ensures
        backlight(lead + decimal(n) + trail) == n,
        backlight(lead + (seq!['-'] + decimal(n)) + trail) == -(n as int),
{
    lemma_decimal(n);
    law_decimal_reads_back(n);
    let d = decimal(n);
    assert(is_digit(d[0]) && is_digit(d[d.len() - 1]));
    law_trimming_leaves_the_text(lead, d, trail);
    let m = seq!['-'] + d;
    assert(m[0] == '-' && m.last() == d.last());
    law_trimming_leaves_the_text(lead, m, trail);
    assert(m.drop_first() =~= d);
}

/// The pump on the phone counts as current exactly where the size that the
/// phone prints is the size of this one.
pub proof fn law_only_the_same_size_is_current(have: nat, want: nat, lead: Seq<char>, trail: Seq<char>)
    requires
        all_white(lead),
        all_white(trail),
    ensures
        (trimmed(lead + decimal(have) + trail) == decimal(want)) == (have == want),
{
    lemma_decimal(have);
    let d = decimal(have);
    assert(is_digit(d[0]) && is_digit(d[d.len() - 1]));
    law_trimming_leaves_the_text(lead, d, trail);
    law_decimal_reads_back(have);
    law_decimal_reads_back(want);
}

/// The words of a request for a frame are 4, 1, 2 and the display; the path
/// follows as it is, and behind it nothing but zeros.
pub proof fn law_a_request_names_its_display_and_path(display: u32, path: Seq<u8>)
    ensures
        ({
            let r = request_bytes(display, path);
            &&& le_word(r, 0) == 4
            &&& le_word(r, 4) == 1
            &&& le_word(r, 8) == 2
            &&& le_word(r, 12) == display
            &&& r.subrange(16, 16 + path.len() as int) == path
            &&& r.len() > 16 + path.len()
            &&& forall|i: int| 16 + path.len() <= i < r.len() ==> #[trigger] r[i] == 0
        }),
{
    let r = request_bytes(display, path);
    let head = le32(4) + le32(1) + le32(2) + le32(display as int);
    assert(head.len() == 16);
    assert(r[0] == le32(4)[0] && r[1] == le32(4)[1] && r[2] == le32(4)[2] && r[3] == le32(4)[3]);
    assert(r[4] == le32(1)[0] && r[5] == le32(1)[1] && r[6] == le32(1)[2] && r[7] == le32(1)[3]);
    assert(r[8] == le32(2)[0] && r[9] == le32(2)[1] && r[10] == le32(2)[2] && r[11] == le32(2)[3]);
    let d = le32(display as int);
    assert(r[12] == d[0] && r[13] == d[1] && r[14] == d[2] && r[15] == d[3]);
    lemma_le32(display as int);
    assert(r.subrange(16, 16 + path.len() as int) =~= path);
}

/// Four bytes, the low one first, are read back as the number they were made
/// of.
pub proof fn lemma_le32(n: int)
    requires
        0 <= n < 0x1_0000_0000,
    ensures
        le_word(le32(n), 0) == n,
        le32(n)[0] as int + 256 * le32(n)[1] as int + 65536 * le32(n)[2] as int + 16777216
            * le32(n)[3] as int == n,
{
    let a = n / 256;
    let b = n / 65536;
    let c = n / 16777216;
    assert(b == a / 256 && c == b / 256 && c < 256);
    assert(n == 256 * a + n % 256 && a == 256 * b + a % 256 && b == 256 * c + b % 256);
    assert(c % 256 == c);
}

/// A PNG file whose last chunk is the one that every PNG file ends with is
/// complete to the pump, and is a file to the host.
pub proof fn law_a_complete_file_is_a_file(parts: Seq<Chunk>)
    requires
        parts.len() > 0,
        forall|i: int| 0 <= i < parts.len() ==> (#[trigger] parts[i]).valid(),
        forall|i: int| 0 <= i < parts.len() - 1 ==> !(#[trigger] parts[i]).is_last(),
        parts.last().is_last(),
        parts.last().data.len() == 0,
        parts.last().sum == seq![0xaeu8, 0x42u8, 0x60u8, 0x82u8],
    ensures
        ({
            let file = signature() + chunk_bytes(parts);
            &&& is_png(file)
            &&& file.len() >= 8
            &&& file.subrange(file.len() - 8, file.len() as int) == png_tail()
        }),
{
    law_chunks_make_a_file(parts);
    lemma_ends_with_last(parts);
    let file = signature() + chunk_bytes(parts);
    let body = chunk_bytes(parts);
    let last = parts.last().bytes();
    assert(last.len() == 12);
    assert(last.subrange(4, 12) =~= png_tail());
    assert(file.subrange(file.len() - 8, file.len() as int) =~= last.subrange(4, 12)) by {
        let end = body.subrange(body.len() - 12, body.len() as int);
        assert forall|i: int| 0 <= i < 8 implies #[trigger] file[file.len() - 8 + i] == last[4
            + i] by {
            assert(end[4 + i] == last[4 + i]);
        }
    }
}

proof fn lemma_ends_with_last(parts: Seq<Chunk>)
    requires
        parts.len() > 0,
    ensures
        ({
            let n = parts.last().bytes().len();
            let body = chunk_bytes(parts);
            body.len() >= n && body.subrange(body.len() - n, body.len() as int)
                == parts.last().bytes()
        }),
    decreases parts.len(),
{
    let body = chunk_bytes(parts);
    let rest = parts.skip(1);
    let last = parts.last().bytes();
    if parts.len() == 1 {
        assert(chunk_bytes(rest) =~= seq![]);
        assert(body =~= last);
        assert(body.subrange(body.len() - last.len(), body.len() as int) =~= last);
    } else {
        lemma_ends_with_last(rest);
        assert(rest.last() == parts.last());
        let tail = chunk_bytes(rest);
        assert(body.subrange(body.len() - last.len(), body.len() as int) =~= tail.subrange(
            tail.len() - last.len(),
            tail.len() as int,
        ));
    }
}

/// Of any number of lines behind the heading, one is enough: a phone that is
/// ready is found in whichever line it is listed, whatever the other lines say;
/// and the heading itself lists none.
pub proof fn law_a_phone_is_found_in_any_line(
    lines: Seq<Seq<char>>,
    k: int,
    serial: Seq<char>,
    gap: Seq<char>,
)
    requires
        1 <= k < lines.len(),
        forall|i: int, j: int|
            0 <= i < lines.len() && 0 <= j < lines[i].len() ==> #[trigger] lines[i][j] != '\n',
        is_word(serial),
        all_white(gap),
        gap.len() > 0,
        lines[k] == serial + gap + "device"@,
    ensures
        lists_device(joined(lines, seq!['\n'])),
        !lists_device(lines[0]),
{
    let state = "device"@;
    let words = seq![serial, state];
    reveal_strlit("device");
    assert(is_word(state)) by {
        assert forall|i: int| 0 <= i < state.len() implies !is_white(#[trigger] state[i]) by {}
    }
    assert forall|i: int| 0 <= i < words.len() implies is_word(#[trigger] words[i]) by {}
    law_words_stand_between_white_space(seq![], words, gap, seq![]);
    lemma_two_words(serial, state, gap);
    assert(seq![] + joined(words, gap) + seq![] =~= lines[k]);
    assert(words_of(lines[k]) == words);
    assert(words[1] == state);
    law_pieces_are_what_was_joined(lines, '\n');
    assert(is_device_line(lines[k]));
    let one = seq![lines[0]];
    assert forall|i: int, j: int| 0 <= i < one.len() && 0 <= j < one[i].len() implies
        #[trigger] one[i][j] != '\n' by {
        assert(lines[0][j] != '\n');
    }
    law_pieces_are_what_was_joined(one, '\n');
    assert(joined(one, seq!['\n']) == lines[0]);
}

/// The numbers of a run stand in its statistics under their names.
pub proof fn law_the_numbers_of_a_run(s: Shift)
    ensures
        words_of(stats_text(s)) == seq![
            "captures="@ + decimal(s.captures),
            "shipped="@ + decimal(s.shipped),
            "restage_failed="@ + decimal(s.restage_failed),
        ],
{
    let a = "captures="@ + decimal(s.captures);
    let b = "shipped="@ + decimal(s.shipped);
    let c = "restage_failed="@ + decimal(s.restage_failed);
    let words = seq![a, b, c];
    reveal_strlit("captures=");
    reveal_strlit("shipped=");
    reveal_strlit("restage_failed=");
    reveal_strlit(" shipped=");
    reveal_strlit(" restage_failed=");
    reveal_strlit("\n");
    lemma_label("captures="@, s.captures);
    lemma_label("shipped="@, s.shipped);
    lemma_label("restage_failed="@, s.restage_failed);
    assert forall|i: int| 0 <= i < words.len() implies is_word(#[trigger] words[i]) by {}
    let gap = seq![' '];
    law_words_stand_between_white_space(seq![], words, gap, "\n"@);
    let two = words.drop_last();
    assert(two.drop_last() =~= seq![a]);
    assert(joined(two.drop_last(), gap) == a);
    assert(joined(two, gap) == a + gap + b);
    assert(joined(words, gap) == a + gap + b + gap + c);
    assert(" shipped="@ =~= gap + "shipped="@);
    assert(" restage_failed="@ =~= gap + "restage_failed="@);
    assert(stats_text(s) =~= seq![] + joined(words, gap) + "\n"@);
}

proof fn lemma_label(label: Seq<char>, n: nat)
    requires
        is_word(label),
    ensures
        is_word(label + decimal(n)),
{
    lemma_decimal(n);
    let w = label + decimal(n);
    assert forall|i: int| 0 <= i < w.len() implies !is_white(#[trigger] w[i]) by {
        if i < label.len() {
            assert(w[i] == label[i]);
        } else {
            assert(is_digit(decimal(n)[i - label.len()]));
        }
    }
}

/// A line of words of which the first two are no numbers that fit presses
/// nothing; a third that is none leaves the time as it is, and more than three
/// words say no more than three.
pub proof fn law_what_a_control_line_says(
    words: Seq<Seq<char>>,
    gap: Seq<char>,
    trail: Seq<char>,
    node: nat,
    code: nat,
)
    requires
        words.len() >= 2,
        forall|i: int| 0 <= i < words.len() ==> is_word(#[trigger] words[i]),
        all_white(gap),
        gap.len() > 0,
        all_white(trail),
    ensures
        ({
            let press = pressed_by(joined(words, gap) + trail);
            &&& unsigned(words[0]) is None || unsigned(words[1]) is None ==> press is None
            &&& unsigned(words[0]) == Some(node) && node > 0xffff_ffff ==> press is None
            &&& unsigned(words[1]) == Some(code) && code > 0xffff ==> press is None
            &&& unsigned(words[0]) == Some(node) && unsigned(words[1]) == Some(code) && node
                <= 0xffff_ffff && code <= 0xffff ==> {
                &&& press matches Some(k) && k.node == node && k.code == code
                &&& words.len() == 2 || unsigned(words[2]) is None ==> press == Some(
                    (KeyPress { node: node as u32, code: code as u16, hold_ms: 50 }),
                )
                &&& words.len() > 2 && unsigned(words[2]) is Some && unsigned(words[2])->0
                    <= u64::MAX ==> press == Some(
                    (KeyPress {
                        node: node as u32,
                        code: code as u16,
                        hold_ms: unsigned(words[2])->0 as u64,
                    }),
                )
            }
        }),
{
    law_words_stand_between_white_space(seq![], words, gap, trail);
    assert(seq![] + joined(words, gap) + trail =~= joined(words, gap) + trail);
}

} // verus!
