//! The conversation with the debugging server.
use kaimirror::devtools::{
    evaluated, foreground, list_line, send_eval, snapshot_target, substring, target_line, Evaluated, Request, Script,
    Target, Turn, FOREGROUND_JS,
};
use kaimirror::json;
use kaimirror::rdp::{is_reply, request, split_packet, take_packet, BadFrame, Mailbox};
use kaimirror::survey::{Stage, Survey};

fn framed(body: &str) -> Vec<u8> {
    format!("{}:{}", body.len(), body).into_bytes()
}

fn target(url: &str, focused: bool) -> Target {
    Target {
        actor: "a".into(),
        console: "c".into(),
        url: url.into(),
        title: String::new(),
        focused,
    }
}

#[test]
fn frames_arrive_split_and_batched() {
    let mut buf = Vec::new();
    buf.extend_from_slice(b"15:{\"from\":\"ro");
    assert_eq!(split_packet(&mut buf), Ok(None));
    buf.extend_from_slice(b"ot\"}");
    assert_eq!(split_packet(&mut buf).unwrap().as_deref(), Some(r#"{"from":"root"}"#));

    let mut both = framed(r#"{"from":"a"}"#);
    both.extend(framed(r#"{"from":"b"}"#));
    assert_eq!(split_packet(&mut both).unwrap().as_deref(), Some(r#"{"from":"a"}"#));
    assert_eq!(split_packet(&mut both).unwrap().as_deref(), Some(r#"{"from":"b"}"#));
    assert!(both.is_empty());
}

#[test]
fn the_length_is_bytes_not_characters() {
    let body = r#"{"from":"a","title":"✓ 😀"}"#;
    let mut buf = framed(body);
    assert_eq!(split_packet(&mut buf).unwrap().as_deref(), Some(body));
    assert!(buf.is_empty());
}

#[test]
fn events_are_not_mistaken_for_replies() {
    let event = json::parse(r#"{"from":"root","type":"tabListChanged"}"#).unwrap();
    let reply = json::parse(r#"{"from":"root","tabs":[]}"#).unwrap();
    let result = json::parse(r#"{"from":"c1","type":"evaluationResult","result":"x"}"#).unwrap();

    assert!(!is_reply(&event, "root", None));
    assert!(is_reply(&reply, "root", None));
    assert!(!is_reply(&reply, "other", None));
    // ...except the one reply that is delivered as an event.
    assert!(is_reply(&result, "c1", Some("evaluationResult")));
    assert!(!is_reply(&result, "c1", None));
}

#[test]
fn the_foreground_app_wins_over_the_shell() {
    let both = [
        target("http://launcher.localhost/index.html", true),
        target("chrome://b2g/content/shell.html", true),
    ];
    assert_eq!(
        foreground(&both).map(|t| t.url.as_str()),
        Some("http://launcher.localhost/index.html")
    );

    // Only the shell focused: it is still the right answer.
    let shell_only = [
        target("http://notes.localhost/index.html", false),
        target("chrome://b2g/content/shell.html", true),
    ];
    assert_eq!(
        foreground(&shell_only).map(|t| t.url.as_str()),
        Some("chrome://b2g/content/shell.html")
    );

    // Nothing claims focus, and the first target beats refusing to answer.
    let none = [target("http://notes.localhost/index.html", false)];
    assert!(foreground(&none).is_some());
    assert!(foreground(&[]).is_none());
}

#[test]
fn a_target_names_itself_from_its_url_when_it_has_no_title() {
    let t = target("http://keyboard.localhost/index.html#%7B%22isFocus%22%3Afalse%7D", false);
    assert_eq!(t.label(), "keyboard.localhost");
    let mut titled = target("http://notes.localhost/index.html", false);
    titled.title = "Notes".into();
    assert_eq!(titled.label(), "Notes");
    assert_eq!(target("about:blank", false).label(), "about:blank");
    assert_eq!(target("a/b", false).label(), "a");
    assert_eq!(target("x://a://b", false).label(), "a");
    assert_eq!(target("x:///b", false).label(), "");
    assert_eq!(target_line(&titled), "target: Notes (http://notes.localhost/index.html)");
    assert_eq!(list_line(3, &titled, true), "* 3  Notes (http://notes.localhost/index.html)");
    assert_eq!(list_line(10, &titled, false), "  10  Notes (http://notes.localhost/index.html)");
}

#[test]
fn what_is_not_framed_is_refused_and_left() {
    for bad in ["x:y", ":", "-1:a", "1 :a", "99999999999999999999999:a", "\u{e9}:"] {
        let mut buf = bad.as_bytes().to_vec();
        assert_eq!(split_packet(&mut buf), Err(BadFrame), "{bad}");
        assert_eq!(buf, bad.as_bytes());
    }
    let mut plus = b"+2:ab".to_vec();
    assert_eq!(split_packet(&mut plus).unwrap().as_deref(), Some("ab"));
    let mut huge = b"18446744073709551615:a".to_vec();
    assert_eq!(take_packet(&mut huge), Ok(None));
}

#[test]
fn bytes_that_are_no_text_are_replaced() {
    let mut buf = b"3:a\xffbrest".to_vec();
    assert_eq!(split_packet(&mut buf).unwrap().as_deref(), Some("a\u{fffd}b"));
    assert_eq!(buf, b"rest");
}

#[test]
fn a_request_is_framed_by_its_bytes_and_reads_back() {
    assert_eq!(request("root", "listTabs", ""), r#"31:{"to":"root","type":"listTabs"}"#);
    assert_eq!(
        request("root", "getProcess", ",\"id\":0"),
        r#"40:{"to":"root","type":"getProcess","id":0}"#
    );
    let eval = send_eval("c\u{e9}\"1", "'✓' + \"x\"");
    let mut wire = eval.framed().into_bytes();
    let body = split_packet(&mut wire).unwrap().unwrap();
    assert!(wire.is_empty());
    let pkt = json::parse(&body).unwrap();
    assert_eq!(pkt.text("to"), "c\u{e9}\"1");
    assert_eq!(pkt.text("type"), "evaluateJSAsync");
    assert_eq!(pkt.text("text"), "'✓' + \"x\"");
    assert_eq!(
        substring("s1", 12000).framed(),
        r#"52:{"to":"s1","type":"substring","start":0,"end":12000}"#
    );
}

#[test]
fn packets_wait_until_they_are_asked_for() {
    let pkt = |s: &str| json::parse(s).unwrap();
    let mut mail = Mailbox::new();
    assert!(mail.take("a", None).is_none());
    assert!(mail.offer(pkt(r#"{"from":"b","n":"1"}"#), "a", None).is_none());
    assert!(mail.offer(pkt(r#"{"from":"b","n":"2"}"#), "a", None).is_none());
    let got = mail.offer(pkt(r#"{"from":"a","n":"3"}"#), "a", None).unwrap();
    assert_eq!(got.text("n"), "3");
    // The first that fits is handed out, and is gone then.
    assert_eq!(mail.take("b", None).unwrap().text("n"), "1");
    assert_eq!(mail.take("b", None).unwrap().text("n"), "2");
    assert!(mail.take("b", None).is_none());
}

fn text_of(e: Evaluated) -> String {
    match e {
        Evaluated::Text(t) => t,
        Evaluated::Long { .. } => panic!("a long text"),
    }
}

#[test]
fn what_came_of_a_script() {
    let of = |s: &str| evaluated(&json::parse(s).unwrap());
    assert_eq!(text_of(of(r#"{"result":"x"}"#)), "x");
    assert_eq!(text_of(of(r#"{"result":5}"#)), "");
    assert_eq!(text_of(of(r#"{}"#)), "");
    assert_eq!(
        text_of(of(r#"{"hasException":true,"exceptionMessage":"no body","result":"x"}"#)),
        "<the page threw: no body>"
    );
    assert_eq!(text_of(of(r#"{"hasException":true}"#)), "<the page threw: ?>");
    match of(r#"{"result":{"type":"longString","actor":"s1","length":12000}}"#) {
        Evaluated::Long { actor, length } => {
            assert_eq!(actor, "s1");
            assert_eq!(length.as_deref(), Some("12000"));
        }
        Evaluated::Text(_) => panic!("a long text"),
    }
}

fn kinds(sends: &[Request]) -> Vec<(String, &'static str)> {
    sends.iter().map(|r| (r.to.clone(), r.kind)).collect()
}

/// A whole survey: two tabs, one of which is gone, and the shell.
#[test]
fn a_survey_from_end_to_end() {
    let pkt = |s: &str| json::parse(s).unwrap();
    let (mut s, first) = Survey::new();
    assert_eq!(kinds(&first), [("root".to_string(), "listTabs")]);
    assert_eq!(s.waiting(), Some(("root", None)));

    let sends = s.reply(&pkt(r#"{"from":"root","tabs":[{"actor":"t1"},{"actor":"t2"}]}"#));
    assert_eq!(kinds(&sends), [("t1".to_string(), "getTarget"), ("t2".to_string(), "getTarget")]);
    assert_eq!(s.waiting(), Some(("t1", None)));
    let sends = s.reply(&pkt(
        r#"{"from":"t1","frame":{"actor":"w1","consoleActor":"c1","url":"http://a.localhost/","title":""}}"#,
    ));
    assert!(sends.is_empty());
    let sends = s.reply(&pkt(r#"{"from":"t2","error":"gone"}"#));
    assert_eq!(kinds(&sends), [("root".to_string(), "getProcess")]);
    assert_eq!(sends[0].extra, ",\"id\":0");

    let sends = s.reply(&pkt(r#"{"from":"root","processDescriptor":{"actor":"p0"}}"#));
    assert_eq!(kinds(&sends), [("p0".to_string(), "getTarget")]);
    let sends = s.reply(&pkt(
        r#"{"from":"p0","process":{"actor":"w2","consoleActor":"c2","url":"chrome://b2g/","title":"shell"}}"#,
    ));
    assert_eq!(kinds(&sends), [("w1".to_string(), "attach"), ("w2".to_string(), "attach")]);

    // No script before the last of them is attached.
    assert!(s.reply(&pkt(r#"{"from":"w1"}"#)).is_empty());
    assert_eq!(s.waiting(), Some(("w2", None)));
    let sends = s.reply(&pkt(r#"{"from":"w2"}"#));
    assert_eq!(
        kinds(&sends),
        [("c1".to_string(), "evaluateJSAsync"), ("c2".to_string(), "evaluateJSAsync")]
    );
    assert_eq!(sends[0].extra, format!(",\"text\":{}", json::quote(FOREGROUND_JS)));

    assert_eq!(s.waiting(), Some(("c1", None)));
    assert!(s.reply(&pkt(r#"{"from":"c1","resultID":1}"#)).is_empty());
    assert_eq!(s.waiting(), Some(("c1", Some("evaluationResult"))));
    assert!(s.reply(&pkt(r#"{"from":"c1","type":"evaluationResult","result":"true|Notes|x"}"#)).is_empty());

    // The second answer is too long to be sent at once.
    assert!(s.reply(&pkt(r#"{"from":"c2","resultID":2}"#)).is_empty());
    s.reply(&pkt(
        r#"{"from":"c2","type":"evaluationResult","result":{"type":"longString","actor":"s1","length":7}}"#,
    ));
    assert!(s.measuring());
    assert_eq!(s.waiting(), None);
    assert_eq!(s.length(), Some("7"));
    let sends = s.measured(7);
    assert_eq!(kinds(&sends), [("s1".to_string(), "substring")]);
    assert_eq!(s.waiting(), Some(("s1", None)));
    s.reply(&pkt(r#"{"from":"s1","substring":"false|?"}"#));
    assert_eq!(s.stage(), Stage::Done);

    let found = s.targets();
    assert_eq!(found.len(), 2);
    assert_eq!((found[0].title.as_str(), found[0].focused), ("Notes|x", true));
    assert_eq!((found[1].title.as_str(), found[1].focused), ("shell", false));
    assert_eq!(foreground(&found).unwrap().url, "http://a.localhost/");
}

#[test]
fn a_survey_of_nothing() {
    let pkt = |s: &str| json::parse(s).unwrap();
    let (mut s, _) = Survey::new();
    assert_eq!(kinds(&s.reply(&pkt(r#"{"from":"root"}"#))), [("root".to_string(), "getProcess")]);
    assert!(s.reply(&pkt(r#"{"from":"root"}"#)).is_empty());
    assert_eq!(s.stage(), Stage::Done);
    assert!(s.targets().is_empty());
}

#[test]
fn a_script_from_end_to_end() {
    let pkt = |s: &str| json::parse(s).unwrap();
    let mut s = Script::new("c1");
    assert_eq!(s.waiting(), Some(("c1", None)));
    s.reply(&pkt(r#"{"from":"c1","resultID":1}"#));
    assert_eq!(s.waiting(), Some(("c1", Some("evaluationResult"))));
    s.reply(&pkt(r#"{"result":{"type":"longString","actor":"s1","length":1.2e4}}"#));
    assert_eq!((s.turn(), s.waiting(), s.length()), (Turn::Measure, None, Some("1.2e4")));
    assert_eq!(kinds(&[s.measured(12000)]), [("s1".to_string(), "substring")]);
    assert_eq!(s.waiting(), Some(("s1", None)));
    s.reply(&pkt(r#"{"from":"s1","substring":"a long text"}"#));
    assert_eq!((s.turn(), s.waiting(), s.text()), (Turn::Done, None, "a long text"));
}

#[test]
fn which_window_a_snapshot_reads() {
    let all = [target("http://a.localhost/", false), target("http://b.localhost/", true)];
    assert_eq!(snapshot_target(&all, None), Some(1));
    assert_eq!(snapshot_target(&all, Some(0)), Some(0));
    assert_eq!(snapshot_target(&all, Some(2)), None);
    assert_eq!(snapshot_target(&all, Some(u32::MAX)), None);
    assert_eq!(snapshot_target(&[], None), None);
}
