//! Reading the screen as text, over Gecko's remote debugging socket.
//!
//! The phone's whole user interface is Gecko, and its debugging server can be
//! asked what is on the screen: roles, names and focus come back as text.
//! Here is what is asked and what the answers mean.  The conversation itself
//! is the caller's: `Survey` says what to send and whom to wait for.
use vstd::prelude::*;
use crate::document::{
    fields_written, law_a_decimal_is_a_number, lemma_bare_field, lemma_bare_object,
    lemma_plain_quoted, sound, written,
};
use crate::json::{doc, field, parsed, quote, quoted, text_fields, Doc, Json};
use crate::rdp::{
    extra_field, law_a_request_parses, lemma_request_literals, request, request_body, request_text,
    text_of,
};
use crate::text::{
    chars_at, chars_of, decimal, find_chars, first_at, found_at, lemma_first_at, lemma_found_at,
    push_decimal, same_text, string_of,
};

verus! {

/// Where the debugging server listens on the phone.
pub const SOCKET: &'static str = "/data/local/firefox-debugger-socket";

/// Runs inside the app's own window and returns the tree of what is on the
/// screen as text.  Plain ES5, to survive whatever markup an app uses.
pub const SNAPSHOT_JS: &'static str = r#"
(function () {
  var out = [], n = 0;
  function name(el) {
    var s = el.getAttribute('aria-label') ||
            (el.labels && el.labels[0] && el.labels[0].textContent) ||
            (el.tagName === 'INPUT' ? (el.value || el.placeholder || '') : '') ||
            el.textContent || '';
    return s.replace(/\s+/g, ' ').trim().slice(0, 60);
  }
  function role(el) { return el.getAttribute('role') || el.tagName.toLowerCase(); }
  function onscreen(el) {
    var cs = getComputedStyle(el);
    if (cs.display === 'none' || cs.visibility === 'hidden' || cs.opacity === '0') return false;
    var r = el.getBoundingClientRect();
    return r.width > 0 && r.height > 0 &&
           r.bottom > 0 && r.right > 0 && r.top < innerHeight && r.left < innerWidth;
  }
  function walk(el, depth) {
    if (n++ > 400 || depth > 14) return;
    if (!onscreen(el)) return;
    var kids = el.children, label = name(el);
    var mark = (el === document.activeElement) ? ' [FOCUSED]' : '';
    var worth = mark || el.getAttribute('role') || el.getAttribute('aria-label') ||
                el.tabIndex >= 0 ||
                /^(A|BUTTON|INPUT|SELECT|TEXTAREA|LI|H1|H2|H3)$/.test(el.tagName) ||
                (kids.length === 0 && label);
    if (worth) out.push('  '.repeat(depth) + role(el) + (label ? ' "' + label + '"' : '') + mark);
    // Indent by depth in the *printed* tree, not in the DOM: the layout
    // wrappers a KaiOS app nests eight deep say nothing and should cost
    // nothing to read.
    for (var i = 0; i < kids.length; i++) walk(kids[i], worth ? depth + 1 : depth);
  }
  walk(document.body, 0);
  var a = document.activeElement;
  return ['focus: ' + (a ? role(a) + ' "' + name(a) + '"' : 'none'), '']
         .concat(out).join('\n');
})()
"#;

/// Asks a window whether it is in front, and for its title.  `document.hidden`
/// is not the answer: the launcher says it is hidden while it is on the panel.
pub const FOREGROUND_JS: &'static str = "document.hasFocus() + '|' + document.title";

/// One debuggable window: a running app, or the phone's own shell.
pub struct Target {
    pub actor: String,
    pub console: String,
    pub url: String,
    pub title: String,
    pub focused: bool,
}

/// The same as contracts speak of it.
pub struct Window {
    pub actor: Seq<char>,
    pub console: Seq<char>,
    pub url: Seq<char>,
    pub title: Seq<char>,
    pub focused: bool,
}

impl View for Target {
    type V = Window;

    open spec fn view(&self) -> Window {
        Window {
            actor: self.actor@,
            console: self.console@,
            url: self.url@,
            title: self.title@,
            focused: self.focused,
        }
    }
}

pub open spec fn windows(targets: Seq<Target>) -> Seq<Window> {
    Seq::new(targets.len(), |i: int| targets[i]@)
}

/// A text up to the first slash.
pub open spec fn up_to_slash(s: Seq<char>) -> Seq<char> {
    match first_at(s, '/', 0) {
        Some(k) => s.subrange(0, k),
        None => s,
    }
}

/// The host of a URL: what stands behind the first `://`, up to the next one
/// and to the first slash; without a `://`, the URL up to its first slash.
pub open spec fn host_of(url: Seq<char>) -> Seq<char> {
    match found_at(url, "://"@, 0) {
        None => up_to_slash(url),
        Some(i) => match found_at(url, "://"@, i + 3) {
            Some(j) => up_to_slash(url.subrange(i + 3, j)),
            None => up_to_slash(url.subrange(i + 3, url.len() as int)),
        },
    }
}

/// The name of a window: its title, or else the host of its URL.  The rest of
/// an app's URL can be a whole encoded state, which is not a name.
pub open spec fn label_of(w: Window) -> Seq<char> {
    if w.title.len() > 0 {
        w.title
    } else {
        host_of(w.url)
    }
}

fn slash_from(s: &[char], from: usize, to: usize) -> (end: usize)
    requires
        from <= to <= s@.len(),
    ensures
        from <= end <= to,
        s@.subrange(from as int, end as int) == up_to_slash(s@.subrange(from as int, to as int)),
{
    let ghost part = s@.subrange(from as int, to as int);
    let mut i: usize = from;
    while i < to && s[i] != '/'
        invariant
            from <= i <= to <= s@.len(),
            part == s@.subrange(from as int, to as int),
            first_at(part, '/', 0) == first_at(part, '/', i - from),
        decreases to - i,
    {
        proof {
            assert(part[i - from] == s@[i as int]);
        }
        i = i + 1;
    }
    proof {
        if i < to {
            assert(part[i - from] == s@[i as int]);
            assert(s@.subrange(from as int, i as int) =~= part.subrange(0, i - from));
        } else {
            assert(s@.subrange(from as int, i as int) =~= part);
        }
    }
    i
}

impl Target {
    /// The app's own name, as something short enough to print in a list.
    pub fn label(&self) -> (name: String)
        ensures
            name@ == label_of(self@),
    {
        let title = self.title.as_str();
        if !title.is_empty() {
            return title.to_string();
        }
        let url = chars_of(self.url.as_str());
        let n: usize = url.len();
        let sep = chars_of("://");
        proof {
            reveal_strlit("://");
        }
        match find_chars(url.as_slice(), sep.as_slice(), 0) {
            None => {
                let end: usize = slash_from(url.as_slice(), 0, n);
                proof {
                    assert(url@.subrange(0, n as int) =~= url@);
                }
                string_of(url.as_slice(), 0, end)
            },
            Some(i) => {
                let from: usize = i + 3;
                let to: usize = match find_chars(url.as_slice(), sep.as_slice(), from) {
                    Some(j) => j,
                    None => n,
                };
                let end: usize = slash_from(url.as_slice(), from, to);
                string_of(url.as_slice(), from, end)
            },
        }
    }
}

/// Whether a URL is one of the phone's own shell.
pub open spec fn is_chrome(url: Seq<char>) -> bool {
    "chrome://"@.len() <= url.len() && url.subrange(0, "chrome://"@.len() as int) == "chrome://"@
}

/// The first window, from `i` on, that is focused and, where `apps`, is none
/// of the shell's.
pub open spec fn focused_from(ws: Seq<Window>, apps: bool, i: int) -> Option<int>
    decreases ws.len() - i,
{
    if i < 0 || i >= ws.len() {
        None
    } else if ws[i].focused && !(apps && is_chrome(ws[i].url)) {
        Some(i)
    } else {
        focused_from(ws, apps, i + 1)
    }
}

/// The window that the phone is showing.  The shell claims focus alongside the
/// app in front of it, so a focused app wins; where nothing claims focus, the
/// first window is a better answer than none.
pub open spec fn foreground_of(ws: Seq<Window>) -> Option<int> {
    match focused_from(ws, true, 0) {
        Some(i) => Some(i),
        None => match focused_from(ws, false, 0) {
            Some(i) => Some(i),
            None => if ws.len() > 0 {
                Some(0)
            } else {
                None
            },
        },
    }
}

fn first_focused(targets: &[Target], apps: bool) -> (at: Option<usize>)
    ensures
        match at {
            Some(i) => focused_from(windows(targets@), apps, 0) == Some(i as int) && i
                < targets@.len(),
            None => focused_from(windows(targets@), apps, 0) is None,
        },
{
    let chrome = chars_of("chrome://");
    let mut i: usize = 0;
    while i < targets.len()
        invariant
            i <= targets@.len(),
            chrome@ == "chrome://"@,
            focused_from(windows(targets@), apps, 0) == focused_from(
                windows(targets@),
                apps,
                i as int,
            ),
        decreases targets@.len() - i,
    {
        let url = chars_of(targets[i].url.as_str());
        let shell = chars_at(url.as_slice(), 0, chrome.as_slice());
        if targets[i].focused && !(apps && shell) {
            return Some(i);
        }
        i = i + 1;
    }
    None
}

/// Which of the windows the phone is showing, by index.
pub fn foreground_index(targets: &[Target]) -> (at: Option<usize>)
    ensures
        match at {
            Some(i) => foreground_of(windows(targets@)) == Some(i as int) && i < targets@.len(),
            None => foreground_of(windows(targets@)) is None && targets@.len() == 0,
        },
{
    if let Some(i) = first_focused(targets, true) {
        return Some(i);
    }
    if let Some(i) = first_focused(targets, false) {
        return Some(i);
    }
    if targets.len() > 0 {
        Some(0)
    } else {
        None
    }
}

/// The app the phone is actually showing.
pub fn foreground(targets: &[Target]) -> (t: Option<&Target>)
    ensures
        match t {
            Some(found) => {
                &&& foreground_of(windows(targets@)) matches Some(i)
                &&& 0 <= i < targets@.len()
                &&& *found == targets@[i]
            },
            None => targets@.len() == 0,
        },
{
    match foreground_index(targets) {
        Some(i) => Some(&targets[i]),
        None => None,
    }
}

/// A focused app is preferred to the shell, something focused to what is not,
/// and there is an answer whenever there is a window.
pub proof fn law_a_focused_app_wins(ws: Seq<Window>)
    ensures
        foreground_of(ws) is Some <==> ws.len() > 0,
        foreground_of(ws) matches Some(i) ==> 0 <= i < ws.len(),
        (exists|k: int| 0 <= k < ws.len() && (#[trigger] ws[k]).focused && !is_chrome(ws[k].url))
            ==> (foreground_of(ws) matches Some(i) && ws[i].focused && !is_chrome(ws[i].url)),
        (exists|k: int| 0 <= k < ws.len() && (#[trigger] ws[k]).focused) ==> (foreground_of(
            ws,
        ) matches Some(i) && ws[i].focused),
{
    lemma_focused_from(ws, true, 0);
    lemma_focused_from(ws, false, 0);
}

proof fn lemma_focused_from(ws: Seq<Window>, apps: bool, i: int)
    requires
        0 <= i,
    ensures
        match focused_from(ws, apps, i) {
            Some(k) => i <= k < ws.len() && ws[k].focused && !(apps && is_chrome(ws[k].url)),
            None => forall|k: int|
                i <= k < ws.len() ==> !((#[trigger] ws[k]).focused && !(apps && is_chrome(
                    ws[k].url,
                ))),
        },
    decreases ws.len() - i,
{
    if i < ws.len() {
        lemma_focused_from(ws, apps, i + 1);
    }
}

/// Which window a snapshot reads: the one asked for by its number, or else the
/// one in front; none where there is no such window.
pub open spec fn read_window(ws: Seq<Window>, asked: Option<u32>) -> Option<int> {
    match asked {
        Some(n) => if n < ws.len() {
            Some(n as int)
        } else {
            None
        },
        None => foreground_of(ws),
    }
}

/// Which window a snapshot reads, by index.
pub fn snapshot_target(targets: &[Target], asked: Option<u32>) -> (at: Option<usize>)
    ensures
        match at {
            Some(i) => read_window(windows(targets@), asked) == Some(i as int) && i
                < targets@.len(),
            None => read_window(windows(targets@), asked) is None,
        },
{
    match asked {
        Some(n) => if (n as u64) < targets.len() as u64 {
            Some(n as usize)
        } else {
            None
        },
        None => foreground_index(targets),
    }
}

/// The line that names the window a snapshot is of.
pub fn target_line(t: &Target) -> (line: String)
    ensures
        line@ == "target: "@ + label_of(t@) + " ("@ + t@.url + ")"@,
{
    let mut line = String::new();
    line.append("target: ");
    let label = t.label();
    line.append(label.as_str());
    line.append(" (");
    line.append(t.url.as_str());
    line.append(")");
    proof {
        assert(line@ =~= "target: "@ + label_of(t@) + " ("@ + t@.url + ")"@);
    }
    line
}

/// The line of a window in a list of them: its number, its name and its URL,
/// with a star for the one in front.
pub fn list_line(i: usize, t: &Target, front: bool) -> (line: String)
    ensures
        line@ == (if front {
            "* "@
        } else {
            "  "@
        }) + decimal(i as nat) + "  "@ + label_of(t@) + " ("@ + t@.url + ")"@,
{
    let mut line = String::new();
    if front {
        line.append("* ");
    } else {
        line.append("  ");
    }
    push_decimal(&mut line, i as u64);
    line.append("  ");
    let label = t.label();
    line.append(label.as_str());
    line.append(" (");
    line.append(t.url.as_str());
    line.append(")");
    proof {
        assert(line@ =~= (if front {
            "* "@
        } else {
            "  "@
        }) + decimal(i as nat) + "  "@ + label_of(t@) + " ("@ + t@.url + ")"@);
    }
    line
}

/// What came of evaluating a script in a window.
pub enum Evaluated {
    /// The text it produced.
    Text(String),
    /// A text too long to send: it has to be asked for, from this actor.  The
    /// length is as it was written, where it was written.
    Long { actor: String, length: Option<String> },
}

/// The same as contracts speak of it.
pub enum Answer {
    Text(Seq<char>),
    Long { actor: Seq<char>, length: Option<Seq<char>> },
}

impl View for Evaluated {
    type V = Answer;

    open spec fn view(&self) -> Answer {
        match *self {
            Evaluated::Text(s) => Answer::Text(s@),
            Evaluated::Long { actor, length } => Answer::Long {
                actor: actor@,
                length: match length {
                    Some(l) => Some(l@),
                    None => None,
                },
            },
        }
    }
}

pub open spec fn number_of(d: Doc, key: Seq<char>) -> Option<Seq<char>> {
    match field(d, key) {
        Some(Doc::Num(n)) => Some(n),
        _ => None,
    }
}

/// What the result of an evaluation says: what the page threw, the string it
/// returned, or where to get a long one; nothing of any other value.
pub open spec fn answer_of(reply: Doc) -> Answer {
    if field(reply, "hasException"@) == Some(Doc::Bool(true)) {
        let why = text_of(reply, "exceptionMessage"@);
        Answer::Text(
            "<the page threw: "@ + (if why.len() == 0 {
                "?"@
            } else {
                why
            }) + ">"@,
        )
    } else {
        match field(reply, "result"@) {
            Some(Doc::Str(s)) => Answer::Text(s),
            Some(grip) => if text_of(grip, "type"@) == "longString"@ {
                Answer::Long {
                    actor: text_of(grip, "actor"@),
                    length: number_of(grip, "length"@),
                }
            } else {
                Answer::Text(seq![])
            },
            None => Answer::Text(seq![]),
        }
    }
}

/// What the result of an evaluation says.
pub fn evaluated(reply: &Json) -> (e: Evaluated)
    ensures
        e@ == answer_of(doc(*reply)),
{
    if reply.is_true("hasException") {
        let why = reply.text("exceptionMessage");
        let mut text = String::new();
        text.append("<the page threw: ");
        if why.is_empty() {
            text.append("?");
        } else {
            text.append(why);
        }
        text.append(">");
        proof {
            let w = text_of(doc(*reply), "exceptionMessage"@);
            assert(text@ =~= "<the page threw: "@ + (if w.len() == 0 {
                "?"@
            } else {
                w
            }) + ">"@);
        }
        return Evaluated::Text(text);
    }
    match reply.get("result") {
        Some(Json::Str(s)) => Evaluated::Text(s.as_str().to_string()),
        Some(grip) => {
            if same_text(grip.text("type"), "longString") {
                let length = match grip.num("length") {
                    Some(n) => Some(n.to_string()),
                    None => None,
                };
                Evaluated::Long { actor: grip.text("actor").to_string(), length }
            } else {
                let none = String::new();
                proof {
                    assert(none@ =~= seq![]);
                }
                Evaluated::Text(none)
            }
        },
        None => {
            let none = String::new();
            proof {
                assert(none@ =~= seq![]);
            }
            Evaluated::Text(none)
        },
    }
}

/// One request to an actor.
pub struct Request {
    pub to: String,
    pub kind: &'static str,
    pub extra: String,
}

/// The same as contracts speak of it.
pub struct Asked {
    pub to: Seq<char>,
    pub kind: Seq<char>,
    pub extra: Seq<char>,
}

impl View for Request {
    type V = Asked;

    open spec fn view(&self) -> Asked {
        Asked { to: self.to@, kind: self.kind@, extra: self.extra@ }
    }
}

pub open spec fn asked(requests: Seq<Request>) -> Seq<Asked> {
    Seq::new(requests.len(), |i: int| requests[i]@)
}

impl Request {
    /// The request as it goes over the wire.
    pub fn framed(&self) -> (text: String)
        ensures
            text@ == request_text(self@.to, self@.kind, self@.extra),
    {
        request(self.to.as_str(), self.kind, self.extra.as_str())
    }
}

/// A request without more fields than every request has.
pub open spec fn plain(to: Seq<char>, kind: Seq<char>) -> Asked {
    Asked { to, kind, extra: seq![] }
}

/// The request that evaluates a script in the window of a console.
pub open spec fn evaluation(console: Seq<char>, js: Seq<char>) -> Asked {
    Asked { to: console, kind: "evaluateJSAsync"@, extra: extra_field("text"@, js) }
}

/// The request for a long text, from its beginning up to `end`.
pub open spec fn substring_of(actor: Seq<char>, end: nat) -> Asked {
    Asked {
        to: actor,
        kind: "substring"@,
        extra: ",\"start\":0,\"end\":"@ + decimal(end),
    }
}

/// A request without more fields than every request has.
pub fn plain_request(to: &str, kind: &'static str) -> (r: Request)
    ensures
        r@ == plain(to@, kind@),
{
    let extra = String::new();
    proof {
        assert(extra@ =~= seq![]);
    }
    Request { to: to.to_string(), kind, extra }
}

/// The request that evaluates a script in the window of a console.
pub fn send_eval(console: &str, js: &str) -> (r: Request)
    ensures
        r@ == evaluation(console@, js@),
{
    let mut extra = String::new();
    extra.append(",");
    let name = quote("text");
    extra.append(name.as_str());
    extra.append(":");
    let text = quote(js);
    extra.append(text.as_str());
    proof {
        assert(extra@ =~= extra_field("text"@, js@));
    }
    Request { to: console.to_string(), kind: "evaluateJSAsync", extra }
}

/// The request for a long text, from its beginning up to `end`.
pub fn substring(actor: &str, end: u64) -> (r: Request)
    ensures
        r@ == substring_of(actor@, end as nat),
{
    let mut extra = String::new();
    extra.append(",\"start\":0,\"end\":");
    push_decimal(&mut extra, end);
    proof {
        assert(extra@ =~= ",\"start\":0,\"end\":"@ + decimal(end as nat));
    }
    Request { to: actor.to_string(), kind: "substring", extra }
}

/// Where the evaluation of a script stands: what it waits for.
#[derive(PartialEq, Eq, Structural, Clone, Copy, Debug)]
pub enum Turn {
    /// That the script was taken.
    Ack,
    /// What came of it.
    Result,
    /// Nobody: the length of a long text has to be worked out.
    Measure,
    /// The long text.
    Substring,
    /// Nobody: the text is there.
    Done,
}

/// The evaluation of a script in the window of a console.  Two packets come
/// back: one at once that says it was taken, and the result once it has run.
pub struct Script {
    turn: Turn,
    console: String,
    /// The actor of a long text.
    actor: String,
    /// The length of a long text, as it was written.
    length: Option<String>,
    text: String,
}

/// The same as contracts speak of it.
pub struct Evaluation {
    pub turn: Turn,
    pub console: Seq<char>,
    pub actor: Seq<char>,
    pub length: Option<Seq<char>>,
    pub text: Seq<char>,
}

impl View for Script {
    type V = Evaluation;

    closed spec fn view(&self) -> Evaluation {
        Evaluation {
            turn: self.turn,
            console: self.console@,
            actor: self.actor@,
            length: match self.length {
                Some(l) => Some(l@),
                None => None,
            },
            text: self.text@,
        }
    }
}

impl Evaluation {
    /// A script that has just been sent to a console.
    pub open spec fn start(console: Seq<char>) -> Evaluation {
        Evaluation { turn: Turn::Ack, console, actor: seq![], length: None, text: seq![] }
    }

    /// Whom the evaluation waits for, and for what: a plain reply, or the event
    /// that brings the result.
    pub open spec fn waiting(self) -> Option<(Seq<char>, Option<Seq<char>>)> {
        match self.turn {
            Turn::Ack => Some((self.console, None)),
            Turn::Result => Some((self.console, Some("evaluationResult"@))),
            Turn::Substring => Some((self.actor, None)),
            Turn::Measure | Turn::Done => None,
        }
    }

    /// What a reply leads to.
    pub open spec fn replied(self, reply: Doc) -> Evaluation {
        match self.turn {
            Turn::Ack => Evaluation { turn: Turn::Result, ..self },
            Turn::Result => match answer_of(reply) {
                Answer::Text(text) => Evaluation { turn: Turn::Done, text, ..self },
                Answer::Long { actor, length } => Evaluation {
                    turn: Turn::Measure,
                    actor,
                    length,
                    ..self
                },
            },
            Turn::Substring => Evaluation {
                turn: Turn::Done,
                text: text_of(reply, "substring"@),
                ..self
            },
            Turn::Measure | Turn::Done => self,
        }
    }
}

impl Script {
    /// A script that has just been sent to a console.
    pub fn new(console: &str) -> (s: Script)
        ensures
            s@ == Evaluation::start(console@),
    {
        let s = Script {
            turn: Turn::Ack,
            console: console.to_string(),
            actor: String::new(),
            length: None,
            text: String::new(),
        };
        proof {
            assert(s@.actor =~= seq![]);
            assert(s@.text =~= seq![]);
        }
        s
    }

    pub fn turn(&self) -> (t: Turn)
        ensures
            t == self@.turn,
    {
        self.turn
    }

    /// Whom to wait for, and for what; None where nothing is waited for.
    pub fn waiting(&self) -> (who: Option<(&str, Option<&'static str>)>)
        ensures
            match who {
                Some((to, want)) => self@.waiting() == Some(
                    (
                        to@,
                        match want {
                            Some(k) => Some(k@),
                            None => None,
                        },
                    ),
                ),
                None => self@.waiting() is None,
            },
    {
        match self.turn {
            Turn::Ack => Some((self.console.as_str(), None)),
            Turn::Result => Some((self.console.as_str(), Some("evaluationResult"))),
            Turn::Substring => Some((self.actor.as_str(), None)),
            Turn::Measure | Turn::Done => None,
        }
    }

    /// Take the reply that was waited for.
    pub fn reply(&mut self, reply: &Json)
        ensures
            final(self)@ == old(self)@.replied(doc(*reply)),
    {
        match self.turn {
            Turn::Ack => {
                self.turn = Turn::Result;
            },
            Turn::Result => match evaluated(reply) {
                Evaluated::Text(text) => {
                    self.text = text;
                    self.turn = Turn::Done;
                },
                Evaluated::Long { actor, length } => {
                    self.actor = actor;
                    self.length = length;
                    self.turn = Turn::Measure;
                },
            },
            Turn::Substring => {
                self.text = reply.text("substring").to_string();
                self.turn = Turn::Done;
            },
            Turn::Measure | Turn::Done => {},
        }
    }

    /// The length of the long text, as it was written, where it was.
    pub fn length(&self) -> (l: Option<&str>)
        ensures
            match l {
                Some(t) => self@.length == Some(t@),
                None => self@.length is None,
            },
    {
        match &self.length {
            Some(l) => Some(l.as_str()),
            None => None,
        }
    }

    /// Ask for the long text up to `end`.
    pub fn measured(&mut self, end: u64) -> (r: Request)
        requires
            old(self)@.turn == Turn::Measure,
        ensures
            final(self)@ == (Evaluation { turn: Turn::Substring, ..old(self)@ }),
            r@ == substring_of(old(self)@.actor, end as nat),
    {
        self.turn = Turn::Substring;
        substring(self.actor.as_str(), end)
    }

    /// The text that the script produced, once it is there.
    pub fn text(&self) -> (t: &str)
        ensures
            t@ == self@.text,
    {
        self.text.as_str()
    }
}

proof fn lemma_no_mark(s: Seq<char>, at: int)
    requires
        0 <= at,
        at + 3 <= s.len(),
        s[at] != ':' || s[at + 1] != '/' || s[at + 2] != '/',
    ensures
        s.subrange(at, at + 3) != "://"@,
{
    reveal_strlit("://");
    let there = s.subrange(at, at + 3);
    assert(there[0] == s[at] && there[1] == s[at + 1] && there[2] == s[at + 2]);
}

proof fn lemma_up_to_slash(host: Seq<char>, tail: Seq<char>)
    requires
        !host.contains('/'),
        tail.len() == 0 || tail[0] == '/',
    ensures
        up_to_slash(host + tail) == host,
{
    let s = host + tail;
    lemma_first_at(s, '/', 0);
    if let Some(k) = first_at(s, '/', 0) {
        if k < host.len() {
            assert(host[k] == '/');
        }
        if k > host.len() {
            assert(s[host.len() as int] == '/');
        }
        assert(s.subrange(0, k) =~= host);
    } else {
        if tail.len() > 0 {
            assert(s[host.len() as int] == '/');
        }
        assert(s =~= host);
    }
}

/// The host of a URL is what stands between the `://` and the next slash, if
/// there is one, whatever follows that slash; and a window without a title goes
/// by it.
pub proof fn law_the_host_of_a_url(w: Window, scheme: Seq<char>, host: Seq<char>, tail: Seq<char>)
    requires
        w.url == scheme + seq![':', '/', '/'] + host + tail,
        !scheme.contains(':'),
        !host.contains('/'),
        host.len() == 0 || host.last() != ':',
        tail.len() == 0 || tail[0] == '/',
    ensures
        host_of(w.url) == host,
        w.title =~= seq![] ==> label_of(w) == host,
        !(w.title =~= seq![]) ==> label_of(w) == w.title,
{
    reveal_strlit("://");
    let url = w.url;
    let n = scheme.len() as int;
    let at = n + 3;
    assert(url[n] == ':' && url[n + 1] == '/' && url[n + 2] == '/');
    assert(url.subrange(n, n + 3) =~= "://"@);
    lemma_found_at(url, "://"@, 0);
    assert(found_at(url, "://"@, 0) == Some(n)) by {
        let i = found_at(url, "://"@, 0)->0;
        if i < n {
            assert(scheme[i] != ':');
            assert(url[i] == scheme[i]);
            lemma_no_mark(url, i);
        }
    }
    lemma_found_at(url, "://"@, at);
    if let Some(j) = found_at(url, "://"@, at) {
        let k = j - at;
        // No mark begins in the host: it would need a slash there, or a colon at
        // its end.
        if k < host.len() {
            assert(url[j] == host[k]);
            if k + 1 < host.len() {
                assert(url[j + 1] == host[k + 1]);
                assert(host[k + 1] != '/');
            }
            lemma_no_mark(url, j);
        }
        let part = tail.subrange(0, k - host.len());
        assert(url.subrange(at, j) =~= host + part);
        if k == host.len() {
            assert(url[j] == '/');
            lemma_no_mark(url, j);
        }
        assert(part[0] == tail[0]);
        lemma_up_to_slash(host, part);
    } else {
        assert(url.subrange(at, url.len() as int) =~= host + tail);
        lemma_up_to_slash(host, tail);
    }
}

/// Without a `://` the host is the URL up to its first slash.
pub proof fn law_the_host_without_a_scheme(host: Seq<char>, tail: Seq<char>)
    requires
        !host.contains('/'),
        tail.len() == 0 || tail[0] == '/',
        !(host + tail).contains(':'),
    ensures
        host_of(host + tail) == host,
{
    let url = host + tail;
    lemma_found_at(url, "://"@, 0);
    reveal_strlit("://");
    if let Some(i) = found_at(url, "://"@, 0) {
        assert(url[i] != ':');
        lemma_no_mark(url, i);
    }
    lemma_up_to_slash(host, tail);
}

/// The shell's windows are those whose URL begins with `chrome://`.
pub proof fn law_what_belongs_to_the_shell(rest: Seq<char>, url: Seq<char>)
    ensures
        is_chrome(seq!['c', 'h', 'r', 'o', 'm', 'e', ':', '/', '/'] + rest),
        url.len() < 9 ==> !is_chrome(url),
        url.len() >= 9 && !(url.take(9) =~= seq!['c', 'h', 'r', 'o', 'm', 'e', ':', '/', '/'])
            ==> !is_chrome(url),
{
    reveal_strlit("chrome://");
    let mark = seq!['c', 'h', 'r', 'o', 'm', 'e', ':', '/', '/'];
    assert("chrome://"@ =~= mark);
    assert((mark + rest).subrange(0, 9) =~= mark);
    assert(url.len() >= 9 ==> url.take(9) =~= url.subrange(0, 9));
}

proof fn lemma_first_focused(ws: Seq<Window>, apps: bool, from: int, i: int)
    requires
        0 <= from <= i < ws.len(),
        ws[i].focused && !(apps && is_chrome(ws[i].url)),
        forall|j: int|
            from <= j < i ==> !((#[trigger] ws[j]).focused && !(apps && is_chrome(ws[j].url))),
    ensures
        focused_from(ws, apps, from) == Some(i),
    decreases i - from,
{
    if from < i {
        lemma_first_focused(ws, apps, from + 1, i);
    }
}

/// The window in front is the first focused one that is no window of the shell;
/// where there is none, the first focused one; and where nothing is focused, the
/// first of all.  A number picks the window of that number, and no other.
pub proof fn law_which_window_is_read(ws: Seq<Window>, i: int, n: u32)
    ensures
        0 <= i < ws.len() && ws[i].focused && !is_chrome(ws[i].url) && (forall|j: int|
            0 <= j < i ==> !(#[trigger] ws[j]).focused || is_chrome(ws[j].url)) ==> read_window(
            ws,
            None,
        ) == Some(i),
        0 <= i < ws.len() && ws[i].focused && (forall|j: int|
            0 <= j < ws.len() ==> !(#[trigger] ws[j]).focused || is_chrome(ws[j].url)) && (forall|
            j: int,
        |
            0 <= j < i ==> !(#[trigger] ws[j]).focused) ==> read_window(ws, None) == Some(i),
        ws.len() > 0 && (forall|j: int| 0 <= j < ws.len() ==> !(#[trigger] ws[j]).focused)
            ==> read_window(ws, None) == Some(0int),
        ws.len() == 0 ==> read_window(ws, None) is None,
        n < ws.len() ==> read_window(ws, Some(n)) == Some(n as int),
        n >= ws.len() ==> read_window(ws, Some(n)) is None,
{
    lemma_focused_from(ws, true, 0);
    lemma_focused_from(ws, false, 0);
    if 0 <= i < ws.len() && ws[i].focused {
        if !is_chrome(ws[i].url) && forall|j: int|
            0 <= j < i ==> !(#[trigger] ws[j]).focused || is_chrome(ws[j].url) {
            lemma_first_focused(ws, true, 0, i);
        }
        if forall|j: int| 0 <= j < i ==> !(#[trigger] ws[j]).focused {
            lemma_first_focused(ws, false, 0, i);
        }
    }
}

/// What an evaluation answers.  A page that threw says why, if it said it; a
/// short text is the answer itself; and a long one is to be fetched from its
/// actor.  Anything else is no text.
pub proof fn law_what_an_evaluation_answers(reply: Doc, s: Seq<char>, grip: Doc)
    ensures
        field(reply, "hasException"@) == Some(Doc::Bool(true)) ==> {
            &&& field(reply, "exceptionMessage"@) == Some(Doc::Str(s)) && s.len() > 0 ==> answer_of(
                reply,
            ) == Answer::Text("<the page threw: "@ + s + ">"@)
            &&& field(reply, "exceptionMessage"@) is None ==> answer_of(reply) == Answer::Text(
                "<the page threw: "@ + "?"@ + ">"@,
            )
        },
        field(reply, "hasException"@) != Some(Doc::Bool(true)) ==> {
            &&& field(reply, "result"@) == Some(Doc::Str(s)) ==> answer_of(reply) == Answer::Text(s)
            &&& field(reply, "result"@) is None ==> answer_of(reply) == Answer::Text(seq![])
            &&& field(reply, "result"@) == Some(grip) && field(grip, "type"@) == Some(
                Doc::Str("longString"@),
            ) && field(grip, "actor"@) == Some(Doc::Str(s)) ==> (answer_of(
                reply,
            ) matches Answer::Long { actor, length } && actor == s && (forall|n: Seq<char>|
                field(grip, "length"@) == Some(Doc::Num(n)) <==> length == Some(n)))
        },
{
    reveal_strlit("longString");
    if let Doc::Str(t) = grip {
        assert(field(grip, "type"@) is None);
    }
}

/// An evaluation comes to the text that its result holds, after the console has
/// said that it took the script; a long text is asked of its actor, and comes
/// with the reply to that.
pub proof fn law_an_evaluation_comes_to_its_text(
    console: Seq<char>,
    ack: Doc,
    result: Doc,
    long: Doc,
    s: Seq<char>,
)
    ensures
        ({
            let sent = Evaluation::start(console);
            let taken = sent.replied(ack);
            let answered = taken.replied(result);
            &&& sent.waiting() == Some((console, None::<Seq<char>>))
            &&& taken.waiting() == Some((console, Some("evaluationResult"@)))
            &&& answer_of(result) == Answer::Text(s) ==> answered.turn == Turn::Done
                && answered.text == s && answered.waiting() is None
            &&& answer_of(result) matches Answer::Long { actor, length } ==> {
                let fetching = Evaluation { turn: Turn::Substring, ..answered };
                &&& answered.turn == Turn::Measure
                &&& answered.length == length
                &&& fetching.waiting() == Some((actor, None::<Seq<char>>))
                &&& fetching.replied(long).turn == Turn::Done
                &&& field(long, "substring"@) == Some(Doc::Str(s)) ==> fetching.replied(long).text
                    == s
            }
        }),
{
}

/// The packet that asks for a long text names its actor, and asks for all of it:
/// from 0 up to the length that was given.
pub proof fn law_a_long_text_is_asked_for_whole(actor: Seq<char>, end: nat)
    ensures
        ({
            let r = substring_of(actor, end);
            parsed(request_body(r.to, r.kind, r.extra)) == Some(
                Doc::Obj(
                    seq![
                        ("to"@, Doc::Str(actor)),
                        ("type"@, Doc::Str("substring"@)),
                        ("start"@, Doc::Num(decimal(0))),
                        ("end"@, Doc::Num(decimal(end))),
                    ],
                ),
            )
        }),
{
    let r = substring_of(actor, end);
    let kind = "substring"@;
    let fields = seq![
        ("to"@, Doc::Str(actor)),
        ("type"@, Doc::Str(kind)),
        ("start"@, Doc::Num(decimal(0))),
        ("end"@, Doc::Num(decimal(end))),
    ];
    let d = Doc::Obj(fields);
    let none = Seq::<char>::empty();
    law_a_decimal_is_a_number(0);
    law_a_decimal_is_a_number(end);
    lemma_bare_field(d, 0);
    lemma_bare_field(d, 1);
    lemma_bare_field(d, 2);
    lemma_bare_field(d, 3);
    assert(written(fields[0].1, none) == quoted(actor));
    assert(written(fields[1].1, none) == quoted(kind));
    assert(written(fields[2].1, none) == decimal(0));
    assert(written(fields[3].1, none) == decimal(end));
    lemma_request_literals();
    lemma_substring_literal();
    lemma_layout(
        quoted("to"@),
        quoted(actor),
        quoted("type"@),
        quoted(kind),
        quoted("start"@),
        decimal(0),
        quoted("end"@),
        decimal(end),
    );
    assert(fields_written(d, 3, none) =~= quoted("end"@) + seq![':'] + decimal(end));
    assert forall|i: int| 0 <= i < fields.len() implies sound((#[trigger] fields[i]).1) by {}
    lemma_bare_object(fields);
}

proof fn lemma_substring_literal()
    ensures
        ",\"start\":0,\"end\":"@ == seq![','] + quoted("start"@) + seq![':'] + decimal(0) + seq![
            ',',
        ] + quoted("end"@) + seq![':'],
{
    reveal_strlit(",\"start\":0,\"end\":");
    reveal_strlit("start");
    reveal_strlit("end");
    lemma_plain_quoted("start"@);
    lemma_plain_quoted("end"@);
    assert(decimal(0) =~= seq!['0']) by {
        reveal_with_fuel(decimal, 2);
    }
    assert(",\"start\":0,\"end\":"@ =~= seq![','] + quoted("start"@) + seq![':'] + decimal(0) + seq![
        ',',
    ] + quoted("end"@) + seq![':']);
}

/// The same pieces in the same order, however they are put together.
proof fn lemma_layout(
    a: Seq<char>,
    b: Seq<char>,
    c: Seq<char>,
    d: Seq<char>,
    e: Seq<char>,
    f: Seq<char>,
    g: Seq<char>,
    h: Seq<char>,
)
    ensures
        (seq!['{'] + a + seq![':']) + b + (seq![','] + c + seq![':']) + d + ((seq![','] + e + seq![
            ':',
        ] + f + seq![','] + g + seq![':']) + h) + seq!['}'] == seq!['{'] + (a + seq![':'] + b + (
        seq![','] + (c + seq![':'] + d + (seq![','] + (e + seq![':'] + f + (seq![','] + (g + seq![
            ':',
        ] + h))))))) + seq!['}'],
{
    let last = g + seq![':'] + h;
    let third = e + seq![':'] + f + (seq![','] + last);
    let second = c + seq![':'] + d + (seq![','] + third);
    let first = a + seq![':'] + b + (seq![','] + second);
    let extra = (seq![','] + e + seq![':'] + f + seq![','] + g + seq![':']) + h;
    assert(extra =~= seq![','] + third);
    assert((seq![','] + c + seq![':']) + d + extra =~= seq![','] + second);
    assert((seq!['{'] + a + seq![':']) + b + (seq![','] + c + seq![':']) + d + extra =~= seq!['{']
        + a + seq![':'] + b + ((seq![','] + c + seq![':']) + d + extra));
    assert(seq!['{'] + a + seq![':'] + b + (seq![','] + second) =~= seq!['{'] + first);
}

/// The packet that evaluates a script names the console and holds the script as
/// it is, whatever characters it is written with.
pub proof fn law_a_script_is_sent_as_it_is(console: Seq<char>, js: Seq<char>)
    ensures
        ({
            let r = evaluation(console, js);
            parsed(request_body(r.to, r.kind, r.extra)) == Some(
                Doc::Obj(
                    seq![
                        ("to"@, Doc::Str(console)),
                        ("type"@, Doc::Str("evaluateJSAsync"@)),
                        ("text"@, Doc::Str(js)),
                    ],
                ),
            )
        }),
{
    let kind = "evaluateJSAsync"@;
    law_a_request_parses(console, kind, "text"@, js);
    assert(text_fields(seq![("to"@, console), ("type"@, kind), ("text"@, js)]) =~= seq![
        ("to"@, Doc::Str(console)),
        ("type"@, Doc::Str(kind)),
        ("text"@, Doc::Str(js)),
    ]);
}

/// Where another `://` follows the host, without a slash between, the host ends
/// there.
pub proof fn law_the_host_ends_at_the_next_mark(
    scheme: Seq<char>,
    host: Seq<char>,
    rest: Seq<char>,
)
    requires
        !scheme.contains(':'),
        !host.contains(':'),
        !host.contains('/'),
    ensures
        host_of(scheme + seq![':', '/', '/'] + host + seq![':', '/', '/'] + rest) == host,
{
    reveal_strlit("://");
    let mark = seq![':', '/', '/'];
    let url = scheme + mark + host + mark + rest;
    let n = scheme.len() as int;
    let at = n + 3;
    let m = at + host.len();
    assert(url.subrange(n, n + 3) =~= "://"@);
    assert(url.subrange(m, m + 3) =~= "://"@);
    lemma_found_at(url, "://"@, 0);
    assert(found_at(url, "://"@, 0) == Some(n)) by {
        let i = found_at(url, "://"@, 0)->0;
        if i < n {
            assert(scheme[i] != ':');
            assert(url[i] == scheme[i]);
            lemma_no_mark(url, i);
        }
    }
    lemma_found_at(url, "://"@, at);
    assert(found_at(url, "://"@, at) == Some(m)) by {
        let j = found_at(url, "://"@, at)->0;
        if j < m {
            assert(host[j - at] != ':');
            assert(url[j] == host[j - at]);
            lemma_no_mark(url, j);
        }
    }
    assert(url.subrange(at, m) =~= host + seq![]);
    lemma_up_to_slash(host, seq![]);
}

/// A page that threw without saying why is answered with a question mark; a
/// result that is neither a text nor a long one is no text.
pub proof fn law_what_is_no_answer(reply: Doc, grip: Doc)
    ensures
        field(reply, "hasException"@) == Some(Doc::Bool(true)) && field(reply, "exceptionMessage"@)
            == Some(Doc::Str(seq![])) ==> answer_of(reply) == Answer::Text(
            "<the page threw: "@ + "?"@ + ">"@,
        ),
        field(reply, "hasException"@) != Some(Doc::Bool(true)) && field(reply, "result"@) == Some(
            grip,
        ) && !(grip is Str) && field(grip, "type"@) != Some(Doc::Str("longString"@)) ==> answer_of(
            reply,
        ) == Answer::Text(seq![]),
{
    reveal_strlit("longString");
    assert("longString"@.len() == 10);
}

} // verus!
