//! Reading and writing the JSON of the protocol.
use kaimirror::json::{parse, quote, string, unicode, Json};

fn p(s: &str) -> Json {
    parse(s).expect("should parse")
}

#[test]
fn reads_the_shapes_the_protocol_sends() {
    let pkt = p(r#"{"from":"root","tabs":[{"actor":"a1","url":"http://x/","selected":false}],
                        "count":2,"nothing":null}"#);
    assert_eq!(pkt.text("from"), "root");
    assert_eq!(pkt.num("count").and_then(|n| n.parse::<f64>().ok()), Some(2.0));
    assert_eq!(pkt.list("tabs").len(), 1);
    assert_eq!(pkt.list("tabs")[0].text("actor"), "a1");
    assert!(!pkt.list("tabs")[0].is_true("selected"));
    assert_eq!(pkt.get("nothing"), Some(&Json::Null));
}

#[test]
fn missing_and_mistyped_fields_read_as_absent() {
    let pkt = p(r#"{"a":1}"#);
    assert_eq!(pkt.text("b"), "");
    assert_eq!(pkt.list("b"), &[]);
    assert_eq!(pkt.text("a"), ""); // present, but not a string
    assert!(!pkt.is_true("a"));
    assert_eq!(Json::Num("1.0".to_string()).get("a"), None);
}

#[test]
fn escapes_survive_a_round_trip() {
    let text = "line\n\"quoted\" \\ tab\tunicode \u{2713} emoji \u{1f600}";
    let doc = format!(r#"{{"text":{}}}"#, quote(text));
    assert_eq!(p(&doc).text("text"), text);
    assert_eq!(p(r#"{"s":"✓ 😀 \/"}"#).text("s"), "\u{2713} \u{1f600} /");
}

#[test]
fn malformed_input_is_none_rather_than_a_panic() {
    for bad in ["", "{", "{\"a\"}", "[1,]", "{\"a\":1}trailing", "\"unterminated"] {
        assert_eq!(parse(bad), None, "{bad:?} should not parse");
    }
}

#[test]
fn every_control_character_is_quoted_and_read_back() {
    assert_eq!(quote("a\u{1}\u{1f}\u{7f}"), "\"a\\u0001\\u001f\u{7f}\"");
    assert_eq!(quote("\"\\\n\r\t"), r#""\"\\\n\r\t""#);
    for n in 0u32..0x80 {
        let s = char::from_u32(n).unwrap().to_string();
        assert_eq!(parse(&quote(&s)), Some(Json::Str(s)));
    }
}

#[test]
fn unicode_escapes() {
    assert_eq!(parse(r#""\u2713""#), Some(Json::Str("\u{2713}".to_string())));
    assert_eq!(parse(r#""\u00E9\u00e9""#), Some(Json::Str("\u{e9}\u{e9}".to_string())));
    assert_eq!(parse(r#""\ud83d\ude00""#), Some(Json::Str("\u{1f600}".to_string())));
    // Half a pair with no other half behind it.
    assert_eq!(parse(r#""\ud83dx""#), Some(Json::Str("\u{fffd}x".to_string())));
    // The second half alone, or a first half behind a first half.
    assert_eq!(parse(r#""\ude00""#), None);
    assert_eq!(parse(r#""\ud83d\u0041""#), None);
    // Nor is what lies behind the second halves one of them.
    assert_eq!(parse(r#""\ud800\ue000""#), None);
    assert_eq!(parse(r#""\ud83d\udfff""#), Some(Json::Str("\u{1f7ff}".to_string())));
    // Four digits, and no sign among them.
    assert_eq!(parse(r#""\u+041""#), None);
    assert_eq!(unicode(&['+', '0', '4', '1'], 0), None);
    assert_eq!(unicode(&['0', '0', '4', '1'], 0), Some(('A', 4)));
    assert_eq!(unicode(&['0', '0', '4', '1'], 5), None);
    assert_eq!(unicode(&[], usize::MAX), None);
    assert_eq!(parse(r#""\u12""#), None);
    assert_eq!(parse(r#""\u12g4""#), None);
    assert_eq!(parse("\"\\u\u{e9}12\""), None);
    assert_eq!(parse(r#""\x""#), None);
    assert_eq!(parse(r#""\b\f\/""#), Some(Json::Str("\u{8}\u{c}/".to_string())));
}

#[test]
fn numbers_are_kept_as_they_were_written() {
    for good in ["0", "-1", "+1", "1.", ".5", "1e9", "1.5E-3", "12345678901234567890", "00"] {
        assert_eq!(parse(good), Some(Json::Num(good.to_string())), "{good}");
        assert!(good.parse::<f64>().is_ok());
    }
    for bad in ["-", ".", "e5", "1e", "1e+", "1-2", "1.2.3", "--1", "+-1"] {
        assert_eq!(parse(bad), None, "{bad}");
        assert!(bad.parse::<f64>().is_err());
    }
}

#[test]
fn white_space_is_allowed_around_everything() {
    assert_eq!(
        parse(" \t\r\n[ true , false , null , { \"a\" : [ ] , \"b\" : { } } ] \n"),
        Some(Json::Arr(vec![
            Json::Bool(true),
            Json::Bool(false),
            Json::Null,
            Json::Obj(vec![
                ("a".to_string(), Json::Arr(vec![])),
                ("b".to_string(), Json::Obj(vec![])),
            ]),
        ]))
    );
    for bad in ["tru", "nulll", "[1 2]", "{\"a\" 1}", "{,}", "{\"a\":1,}", "[", "{\"a\":", "]"] {
        assert_eq!(parse(bad), None, "{bad:?}");
    }
}

#[test]
fn the_first_of_two_fields_of_one_name_is_read() {
    let pkt = p(r#"{"a":true,"a":false}"#);
    assert!(pkt.is_true("a"));
    assert_eq!(pkt.num("a"), None);
    assert_eq!(Json::Null.str(), None);
    assert_eq!(Json::Str("x".to_string()).str(), Some("x"));
}

#[test]
fn a_quoted_text_is_read_back_wherever_it_stands() {
    for text in ["", "plain", "\"\\\n\u{1}", "✓ 😀"] {
        let quoted = quote(text);
        let whole: Vec<char> = format!("ab{quoted}rest\"").chars().collect();
        let end = 2 + quoted.chars().count();
        assert_eq!(string(&whole, 2), Some((text.to_string(), end)));
        assert_eq!(string(&whole, 0), None);
        assert_eq!(string(&whole, whole.len()), None);
        assert_eq!(string(&whole, usize::MAX), None);
    }
}
