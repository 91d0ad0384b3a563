//! Finding every debuggable window on the phone, the foreground one marked.
//!
//! The requests are pipelined a stage at a time: every `getTarget`, then every
//! `attach`, then every focus check, because each stage needs the one before
//! it but not itself.
use vstd::prelude::*;
use crate::devtools::{
    answer_of, asked, evaluation, plain, plain_request, send_eval, substring_of, windows, Answer,
    Asked, Evaluation, Request, Script, Target, Turn, Window, FOREGROUND_JS,
};
use crate::document::{
    fields_written, law_a_decimal_is_a_number, lemma_bare_field, lemma_bare_object,
    lemma_plain_quoted, sound, written,
};
use crate::json::{doc, docs, field, parsed, quoted, Doc, Json};
use crate::rdp::{lemma_request_literals, request_body, text_of};
use crate::text::{
    chars_of, decimal, first_at, lemma_first_at, position, same_text, string_of, strings,
};

verus! {

/// Where a survey stands: whose reply it waits for.
#[derive(PartialEq, Eq, Structural, Clone, Copy, Debug)]
pub enum Stage {
    /// The list of tabs.
    Tabs,
    /// The window of each tab.
    Frames,
    /// The parent process: the shell is not a tab.
    Process,
    /// The window of the parent process.
    Shell,
    /// That each window is attached.
    Attach,
    /// What came of the focus check of each window.
    Check,
    /// Nobody: every window is known.
    Done,
}

/// A survey under way.
pub struct Survey {
    stage: Stage,
    /// The tabs, by their actors.
    tabs: Vec<String>,
    targets: Vec<Target>,
    /// Which of the tabs, or of the targets, is next to answer.
    at: usize,
    /// The actor of the parent process.
    actor: String,
    /// The focus check of the target that is next to answer.
    script: Script,
}

/// The same as contracts speak of it.
pub struct Course {
    pub stage: Stage,
    pub tabs: Seq<Seq<char>>,
    pub targets: Seq<Window>,
    pub at: int,
    pub actor: Seq<char>,
    pub script: Evaluation,
}

impl View for Survey {
    type V = Course;

    closed spec fn view(&self) -> Course {
        Course {
            stage: self.stage,
            tabs: strings(self.tabs@),
            targets: windows(self.targets@),
            at: self.at as int,
            actor: self.actor@,
            script: self.script@,
        }
    }
}

impl Course {
    pub open spec fn valid(self) -> bool {
        match self.stage {
            Stage::Frames => 0 <= self.at < self.tabs.len(),
            Stage::Attach => 0 <= self.at < self.targets.len(),
            Stage::Check => 0 <= self.at < self.targets.len() && self.script.turn != Turn::Done,
            _ => true,
        }
    }

    pub open spec fn start() -> Course {
        Course {
            stage: Stage::Tabs,
            tabs: seq![],
            targets: seq![],
            at: 0,
            actor: seq![],
            script: Evaluation::start(seq![]),
        }
    }
}

/// Whom a survey waits for, and for what: a plain reply, or the event that
/// brings the result of an evaluation.
pub open spec fn waiting(c: Course) -> Option<(Seq<char>, Option<Seq<char>>)> {
    match c.stage {
        Stage::Tabs | Stage::Process => Some(("root"@, None)),
        Stage::Frames => Some((c.tabs[c.at], None)),
        Stage::Shell => Some((c.actor, None)),
        Stage::Attach => Some((c.targets[c.at].actor, None)),
        Stage::Check => c.script.waiting(),
        Stage::Done => None,
    }
}

/// The list of an array field, empty when there is no such array.
pub open spec fn list_of(d: Doc, key: Seq<char>) -> Seq<Doc> {
    match field(d, key) {
        Some(Doc::Arr(items)) => items,
        _ => seq![],
    }
}

/// A window as its description gives it, not known to be in front.
pub open spec fn described(form: Doc) -> Window {
    Window {
        actor: text_of(form, "actor"@),
        console: text_of(form, "consoleActor"@),
        url: text_of(form, "url"@),
        title: text_of(form, "title"@),
        focused: false,
    }
}

/// The windows so far, and the one that a reply describes in this field, if it
/// does.
pub open spec fn with_described(targets: Seq<Window>, reply: Doc, key: Seq<char>) -> Seq<Window> {
    match field(reply, key) {
        Some(form) => targets.push(described(form)),
        None => targets,
    }
}

/// What a focus check says of a window: whether it is in front, and its title,
/// which it takes where it had none.
pub open spec fn checked(w: Window, answer: Seq<char>) -> Window {
    match first_at(answer, '|', 0) {
        None => Window { focused: false, ..w },
        Some(bar) => Window {
            focused: answer.subrange(0, bar) == "true"@,
            title: if w.title.len() == 0 {
                answer.subrange(bar + 1, answer.len() as int)
            } else {
                w.title
            },
            ..w
        },
    }
}

/// On to the parent process.
pub open spec fn to_process(c: Course) -> (Course, Seq<Asked>) {
    (
        Course { stage: Stage::Process, ..c },
        seq![Asked { to: "root"@, kind: "getProcess"@, extra: ",\"id\":0"@ }],
    )
}

/// On to attaching the windows, all at once.
pub open spec fn to_attach(c: Course) -> (Course, Seq<Asked>) {
    if c.targets.len() == 0 {
        (Course { stage: Stage::Done, ..c }, seq![])
    } else {
        (
            Course { stage: Stage::Attach, at: 0, ..c },
            Seq::new(c.targets.len(), |i: int| plain(c.targets[i].actor, "attach"@)),
        )
    }
}

/// On to the next window, with what the check of this one said.
pub open spec fn to_next_check(c: Course) -> Course {
    let targets = c.targets.update(c.at, checked(c.targets[c.at], c.script.text));
    if c.at + 1 == targets.len() {
        Course { stage: Stage::Done, targets, ..c }
    } else {
        Course {
            targets,
            at: c.at + 1,
            script: Evaluation::start(targets[c.at + 1].console),
            ..c
        }
    }
}

/// What a reply leads to: where the survey stands then, and what is sent.
pub open spec fn advanced(c: Course, reply: Doc) -> (Course, Seq<Asked>) {
    match c.stage {
        Stage::Tabs => {
            let listed = list_of(reply, "tabs"@);
            let tabs = Seq::new(listed.len(), |i: int| text_of(listed[i], "actor"@));
            if tabs.len() == 0 {
                to_process(Course { tabs, ..c })
            } else {
                (
                    Course { stage: Stage::Frames, tabs, at: 0, ..c },
                    Seq::new(tabs.len(), |i: int| plain(tabs[i], "getTarget"@)),
                )
            }
        },
        Stage::Frames => {
            let targets = with_described(c.targets, reply, "frame"@);
            if c.at + 1 == c.tabs.len() {
                to_process(Course { targets, ..c })
            } else {
                (Course { targets, at: c.at + 1, ..c }, seq![])
            }
        },
        Stage::Process => match field(reply, "processDescriptor"@) {
            Some(d) => {
                let actor = text_of(d, "actor"@);
                (Course { stage: Stage::Shell, actor, ..c }, seq![plain(actor, "getTarget"@)])
            },
            None => to_attach(c),
        },
        Stage::Shell => to_attach(
            Course { targets: with_described(c.targets, reply, "process"@), ..c },
        ),
        Stage::Attach => if c.at + 1 == c.targets.len() {
            (
                Course {
                    stage: Stage::Check,
                    at: 0,
                    script: Evaluation::start(c.targets[0].console),
                    ..c
                },
                Seq::new(
                    c.targets.len(),
                    |i: int| evaluation(c.targets[i].console, FOREGROUND_JS@),
                ),
            )
        } else {
            (Course { at: c.at + 1, ..c }, seq![])
        },
        Stage::Check => {
            let on = Course { script: c.script.replied(reply), ..c };
            if on.script.turn == Turn::Done {
                (to_next_check(on), seq![])
            } else {
                (on, seq![])
            }
        },
        Stage::Done => (c, seq![]),
    }
}

/// What follows once the length of a long answer is known.
pub open spec fn measured(c: Course, end: nat) -> (Course, Seq<Asked>) {
    (
        Course { script: Evaluation { turn: Turn::Substring, ..c.script }, ..c },
        seq![substring_of(c.script.actor, end)],
    )
}

/// A window as its description gives it.
fn describe(form: &Json) -> (t: Target)
    ensures
        t@ == described(doc(*form)),
{
    Target {
        actor: form.text("actor").to_string(),
        console: form.text("consoleActor").to_string(),
        url: form.text("url").to_string(),
        title: form.text("title").to_string(),
        focused: false,
    }
}

fn one_request(r: Request) -> (v: Vec<Request>)
    ensures
        asked(v@) == seq![r@],
{
    let mut v: Vec<Request> = Vec::new();
    v.push(r);
    proof {
        assert(asked(v@) =~= seq![r@]);
    }
    v
}

fn no_requests() -> (v: Vec<Request>)
    ensures
        asked(v@) == Seq::<Asked>::empty(),
{
    let v: Vec<Request> = Vec::new();
    proof {
        assert(asked(v@) =~= Seq::<Asked>::empty());
    }
    v
}

impl Survey {
    /// A new survey, and its first request.
    pub fn new() -> (s: (Survey, Vec<Request>))
        ensures
            s.0@ == Course::start(),
            s.0@.valid(),
            asked(s.1@) == seq![plain("root"@, "listTabs"@)],
    {
        let s = Survey {
            stage: Stage::Tabs,
            tabs: Vec::new(),
            targets: Vec::new(),
            at: 0,
            actor: String::new(),
            script: Script::new(""),
        };
        proof {
            reveal_strlit("");
            assert(""@ =~= seq![]);
            assert(s@.tabs =~= seq![]);
            assert(s@.targets =~= seq![]);
            assert(s@.actor =~= seq![]);
        }
        (s, one_request(plain_request("root", "listTabs")))
    }

    pub fn stage(&self) -> (stage: Stage)
        ensures
            stage == self@.stage,
    {
        self.stage
    }

    /// Whom to wait for, and for what; None where nothing is waited for.
    pub fn waiting(&self) -> (who: Option<(&str, Option<&'static str>)>)
        requires
            self@.valid(),
        ensures
            match who {
                Some((to, want)) => waiting(self@) == Some(
                    (
                        to@,
                        match want {
                            Some(k) => Some(k@),
                            None => None,
                        },
                    ),
                ),
                None => waiting(self@) is None,
            },
    {
        match self.stage {
            Stage::Tabs | Stage::Process => Some(("root", None)),
            Stage::Frames => Some((self.tabs[self.at].as_str(), None)),
            Stage::Shell => Some((self.actor.as_str(), None)),
            Stage::Attach => Some((self.targets[self.at].actor.as_str(), None)),
            Stage::Check => self.script.waiting(),
            Stage::Done => None,
        }
    }
}

/// Applies the answer to a focus check.
fn check(t: Target, answer: &str) -> (after: Target)
    ensures
        after@ == checked(t@, answer@),
{
    let mut t = t;
    match position(answer, '|') {
        None => {
            t.focused = false;
        },
        Some(bar) => {
            let chars = chars_of(answer);
            let n: usize = chars.len();
            proof {
                lemma_first_at(answer@, '|', 0);
            }
            let before = string_of(chars.as_slice(), 0, bar);
            t.focused = same_text(before.as_str(), "true");
            if t.title.as_str().is_empty() {
                t.title = string_of(chars.as_slice(), bar + 1, n);
            }
        },
    }
    t
}

impl Survey {
    fn to_process(&mut self) -> (sends: Vec<Request>)
        ensures
            (final(self)@, asked(sends@)) == to_process(old(self)@),
    {
        self.stage = Stage::Process;
        one_request(
            Request {
                to: "root".to_string(),
                kind: "getProcess",
                extra: ",\"id\":0".to_string(),
            },
        )
    }

    fn to_attach(&mut self) -> (sends: Vec<Request>)
        ensures
            (final(self)@, asked(sends@)) == to_attach(old(self)@),
    {
        let n: usize = self.targets.len();
        if n == 0 {
            self.stage = Stage::Done;
            return no_requests();
        }
        self.stage = Stage::Attach;
        self.at = 0;
        let mut sends = no_requests();
        let ghost ws = self@.targets;
        let ghost all = Seq::new(ws.len(), |i: int| plain(ws[i].actor, "attach"@));
        let mut i: usize = 0;
        proof {
            assert(asked(sends@) =~= all.subrange(0, 0));
        }
        while i < n
            invariant
                i <= n,
                n == self.targets@.len(),
                ws == windows(self.targets@),
                self@ == (Course { stage: Stage::Attach, at: 0, ..old(self)@ }),
                all == Seq::new(ws.len(), |i: int| plain(ws[i].actor, "attach"@)),
                asked(sends@) == all.subrange(0, i as int),
            decreases n - i,
        {
            let r = plain_request(self.targets[i].actor.as_str(), "attach");
            let ghost before = asked(sends@);
            sends.push(r);
            i = i + 1;
            proof {
                assert(asked(sends@) =~= before.push(r@));
                assert(asked(sends@) =~= all.subrange(0, i as int));
            }
        }
        proof {
            assert(all.subrange(0, n as int) =~= all);
        }
        sends
    }

    fn to_checks(&mut self) -> (sends: Vec<Request>)
        requires
            old(self)@.targets.len() > 0,
        ensures
            final(self)@ == (Course {
                stage: Stage::Check,
                at: 0,
                script: Evaluation::start(old(self)@.targets[0].console),
                ..old(self)@
            }),
            asked(sends@) == Seq::new(
                old(self)@.targets.len(),
                |i: int| evaluation(old(self)@.targets[i].console, FOREGROUND_JS@),
            ),
    {
        let n: usize = self.targets.len();
        self.stage = Stage::Check;
        self.at = 0;
        self.script = Script::new(self.targets[0].console.as_str());
        let mut sends = no_requests();
        let ghost ws = self@.targets;
        let ghost all = Seq::new(ws.len(), |i: int| evaluation(ws[i].console, FOREGROUND_JS@));
        let mut i: usize = 0;
        proof {
            assert(asked(sends@) =~= all.subrange(0, 0));
        }
        while i < n
            invariant
                i <= n,
                n == self.targets@.len(),
                ws == windows(self.targets@),
                self@ == (Course {
                    stage: Stage::Check,
                    at: 0,
                    script: Evaluation::start(old(self)@.targets[0].console),
                    ..old(self)@
                }),
                all == Seq::new(ws.len(), |i: int| evaluation(ws[i].console, FOREGROUND_JS@)),
                asked(sends@) == all.subrange(0, i as int),
            decreases n - i,
        {
            let r = send_eval(self.targets[i].console.as_str(), FOREGROUND_JS);
            let ghost before = asked(sends@);
            sends.push(r);
            i = i + 1;
            proof {
                assert(asked(sends@) =~= before.push(r@));
                assert(asked(sends@) =~= all.subrange(0, i as int));
            }
        }
        proof {
            assert(all.subrange(0, n as int) =~= all);
            assert(all =~= Seq::new(
                old(self)@.targets.len(),
                |i: int| evaluation(old(self)@.targets[i].console, FOREGROUND_JS@),
            ));
        }
        sends
    }

    fn to_frames(&mut self, listed: &[Json]) -> (sends: Vec<Request>)
        requires
            listed@.len() > 0,
        ensures
            ({
                let ds = docs(listed@);
                let tabs = Seq::new(ds.len(), |i: int| text_of(ds[i], "actor"@));
                &&& final(self)@ == (Course { stage: Stage::Frames, tabs, at: 0, ..old(self)@ })
                &&& asked(sends@) == Seq::new(
                    tabs.len(),
                    |i: int| plain(tabs[i], "getTarget"@),
                )
            }),
    {
        let ghost ds = docs(listed@);
        let ghost all = Seq::new(ds.len(), |i: int| text_of(ds[i], "actor"@));
        let ghost requests = Seq::new(all.len(), |i: int| plain(all[i], "getTarget"@));
        let mut tabs: Vec<String> = Vec::new();
        let mut sends = no_requests();
        let mut i: usize = 0;
        proof {
            assert(strings(tabs@) =~= all.subrange(0, 0));
            assert(asked(sends@) =~= requests.subrange(0, 0));
        }
        while i < listed.len()
            invariant
                i <= listed@.len(),
                ds == docs(listed@),
                all == Seq::new(ds.len(), |i: int| text_of(ds[i], "actor"@)),
                requests == Seq::new(all.len(), |i: int| plain(all[i], "getTarget"@)),
                strings(tabs@) == all.subrange(0, i as int),
                asked(sends@) == requests.subrange(0, i as int),
            decreases listed@.len() - i,
        {
            let actor = listed[i].text("actor");
            let ghost before = asked(sends@);
            let ghost tabs_before = strings(tabs@);
            let r = plain_request(actor, "getTarget");
            sends.push(r);
            let tab = actor.to_string();
            tabs.push(tab);
            i = i + 1;
            proof {
                assert(strings(tabs@) =~= tabs_before.push(tab@));
                assert(strings(tabs@) =~= all.subrange(0, i as int));
                assert(asked(sends@) =~= before.push(r@));
                assert(asked(sends@) =~= requests.subrange(0, i as int));
            }
        }
        proof {
            assert(all.subrange(0, all.len() as int) =~= all);
            assert(requests.subrange(0, requests.len() as int) =~= requests);
        }
        self.stage = Stage::Frames;
        self.tabs = tabs;
        self.at = 0;
        sends
    }

    /// Adds the window that a reply describes in this field, if it does.
    fn note(&mut self, reply: &Json, key: &str)
        ensures
            final(self)@ == (Course {
                targets: with_described(old(self)@.targets, doc(*reply), key@),
                ..old(self)@
            }),
    {
        if let Some(form) = reply.get(key) {
            let t = describe(form);
            let ghost before = self@.targets;
            let ghost w = t@;
            self.targets.push(t);
            proof {
                assert(windows(self.targets@) =~= before.push(w));
            }
        }
    }

    fn to_next_check(&mut self)
        requires
            0 <= old(self)@.at < old(self)@.targets.len(),
        ensures
            final(self)@ == to_next_check(old(self)@),
    {
        let ghost before = self@.targets;
        let at: usize = self.at;
        let n: usize = self.targets.len();
        let target = self.targets.remove(at);
        let ghost w = checked(target@, self.script@.text);
        let after = check(target, self.script.text());
        self.targets.insert(at, after);
        proof {
            assert(windows(self.targets@) =~= before.update(at as int, w));
        }
        if at + 1 == n {
            self.stage = Stage::Done;
        } else {
            self.at = at + 1;
            self.script = Script::new(self.targets[at + 1].console.as_str());
        }
    }

    /// Take the reply that was waited for; what is to be sent then comes back.
    pub fn reply(&mut self, reply: &Json) -> (sends: Vec<Request>)
        requires
            old(self)@.valid(),
        ensures
            (final(self)@, asked(sends@)) == advanced(old(self)@, doc(*reply)),
            final(self)@.valid(),
    {
        match self.stage {
            Stage::Tabs => {
                let listed = reply.list("tabs");
                proof {
                    assert(docs(listed@) == list_of(doc(*reply), "tabs"@));
                    assert(docs(listed@).len() == listed@.len());
                }
                if listed.len() == 0 {
                    let none: Vec<String> = Vec::new();
                    self.tabs = none;
                    proof {
                        let ds = docs(listed@);
                        assert(self@.tabs =~= Seq::new(
                            ds.len(),
                            |i: int| text_of(ds[i], "actor"@),
                        ));
                    }
                    self.to_process()
                } else {
                    self.to_frames(listed)
                }
            },
            Stage::Frames => {
                self.note(reply, "frame");
                let n: usize = self.tabs.len();
                if self.at == n - 1 {
                    self.to_process()
                } else {
                    self.at = self.at + 1;
                    no_requests()
                }
            },
            Stage::Process => match reply.get("processDescriptor") {
                Some(d) => {
                    self.actor = d.text("actor").to_string();
                    self.stage = Stage::Shell;
                    one_request(plain_request(self.actor.as_str(), "getTarget"))
                },
                None => self.to_attach(),
            },
            Stage::Shell => {
                self.note(reply, "process");
                self.to_attach()
            },
            Stage::Attach => {
                let n: usize = self.targets.len();
                if self.at == n - 1 {
                    self.to_checks()
                } else {
                    self.at = self.at + 1;
                    no_requests()
                }
            },
            Stage::Check => {
                self.script.reply(reply);
                if self.script.turn() == Turn::Done {
                    self.to_next_check();
                }
                no_requests()
            },
            Stage::Done => no_requests(),
        }
    }

    /// Whether the length of a long answer has to be worked out before the
    /// survey can go on.
    pub fn measuring(&self) -> (yes: bool)
        ensures
            yes == (self@.stage == Stage::Check && self@.script.turn == Turn::Measure),
    {
        self.stage == Stage::Check && self.script.turn() == Turn::Measure
    }

    /// The length of the long answer, as it was written, where it was.
    pub fn length(&self) -> (l: Option<&str>)
        ensures
            match l {
                Some(t) => self@.script.length == Some(t@),
                None => self@.script.length is None,
            },
    {
        self.script.length()
    }

    /// Ask for the long answer up to `end`.
    pub fn measured(&mut self, end: u64) -> (sends: Vec<Request>)
        requires
            old(self)@.valid(),
            old(self)@.stage == Stage::Check,
            old(self)@.script.turn == Turn::Measure,
        ensures
            (final(self)@, asked(sends@)) == measured(old(self)@, end as nat),
            final(self)@.valid(),
    {
        one_request(self.script.measured(end))
    }

    /// The windows that were found.
    pub fn targets(self) -> (found: Vec<Target>)
        ensures
            windows(found@) == self@.targets,
    {
        self.targets
    }
}

/// A window's console never answers before the window is attached: no script
/// is sent until the last of the windows has said that it is, and then one is
/// sent to each.
pub proof fn law_scripts_wait_for_every_attach(c: Course, reply: Doc)
    requires
        c.valid(),
    ensures
        ({
            let (next, sends) = advanced(c, reply);
            (exists|i: int| 0 <= i < sends.len() && (#[trigger] sends[i]).kind == "evaluateJSAsync"@)
                ==> {
                &&& c.stage == Stage::Attach
                &&& c.at + 1 == c.targets.len()
                &&& sends.len() == c.targets.len()
                &&& next.stage == Stage::Check
            }
        }),
{
    reveal_strlit("evaluateJSAsync");
    reveal_strlit("getTarget");
    reveal_strlit("getProcess");
    reveal_strlit("attach");
    assert("evaluateJSAsync"@.len() == 15 && "getTarget"@.len() == 9 && "getProcess"@.len() == 10
        && "attach"@.len() == 6);
}

/// Every window is asked to attach, in order, as the survey turns to that.
pub proof fn law_every_window_is_attached(c: Course, reply: Doc)
    requires
        c.valid(),
        c.stage != Stage::Attach,
        advanced(c, reply).0.stage == Stage::Attach,
    ensures
        ({
            let (next, sends) = advanced(c, reply);
            &&& next.at == 0
            &&& sends.len() == next.targets.len()
            &&& forall|i: int|
                0 <= i < sends.len() ==> #[trigger] sends[i] == plain(
                    next.targets[i].actor,
                    "attach"@,
                )
        }),
{
}

/// How many replies a survey still needs at most, once the tabs are known.
pub open spec fn replies_left(c: Course) -> int {
    let n = c.targets.len() as int;
    match c.stage {
        Stage::Tabs => 0,
        Stage::Frames => 5 * (c.tabs.len() - c.at) + 4 * n + 12,
        Stage::Process => 4 * n + 8,
        Stage::Shell => 4 * n + 6,
        Stage::Attach => 4 * n + 1 - c.at,
        Stage::Check => 3 * (n - c.at) - match c.script.turn {
            Turn::Ack => 0int,
            Turn::Result => 1,
            _ => 2,
        },
        Stage::Done => 0,
    }
}

/// A survey comes to an end: each reply after the list of tabs leaves fewer to
/// come.
pub proof fn law_a_survey_ends(c: Course, reply: Doc)
    requires
        c.valid(),
        c.stage != Stage::Tabs,
        waiting(c) is Some,
    ensures
        0 <= replies_left(advanced(c, reply).0) < replies_left(c),
{
}

/// What a survey is told: a reply, or the length of a long answer.
pub enum Heard {
    Reply(Doc),
    Length(nat),
}

/// A survey that was told these things, one after the other.
pub open spec fn surveyed(c: Course, heard: Seq<Heard>) -> Course
    decreases heard.len(),
{
    if heard.len() == 0 {
        c
    } else {
        let before = surveyed(c, heard.drop_last());
        match heard.last() {
            Heard::Reply(reply) => advanced(before, reply).0,
            Heard::Length(end) => measured(before, end).0,
        }
    }
}

/// What one window answers to its focus check: that it was taken, the result,
/// and, where that is too long to be sent, its length and the text.
pub struct CheckReplies {
    pub ack: Doc,
    pub result: Doc,
    pub length: nat,
    pub long: Doc,
}

impl CheckReplies {
    /// The text that the check produced.
    pub open spec fn answer(self) -> Seq<char> {
        match answer_of(self.result) {
            Answer::Text(t) => t,
            Answer::Long { actor, length } => text_of(self.long, "substring"@),
        }
    }

    pub open spec fn heard(self) -> Seq<Heard> {
        let two = seq![Heard::Reply(self.ack), Heard::Reply(self.result)];
        match answer_of(self.result) {
            Answer::Text(_) => two,
            Answer::Long { actor, length } => two + seq![
                Heard::Length(self.length),
                Heard::Reply(self.long),
            ],
        }
    }
}

/// All that a phone answers to a survey.
pub struct PhoneReplies {
    /// The list of tabs.
    pub tabs: Doc,
    /// The window of each tab.
    pub frames: Seq<Doc>,
    /// The parent process.
    pub process: Doc,
    /// Its window, asked for where there is such a process.
    pub shell: Doc,
    /// That each window is attached.
    pub attached: Seq<Doc>,
    /// The focus check of each window.
    pub checks: Seq<CheckReplies>,
}

/// The windows that these replies describe, behind those already known.
pub open spec fn all_described(targets: Seq<Window>, frames: Seq<Doc>) -> Seq<Window>
    decreases frames.len(),
{
    if frames.len() == 0 {
        targets
    } else {
        with_described(all_described(targets, frames.drop_last()), frames.last(), "frame"@)
    }
}

pub open spec fn replies_of(docs: Seq<Doc>) -> Seq<Heard> {
    Seq::new(docs.len(), |i: int| Heard::Reply(docs[i]))
}

pub open spec fn checks_heard(checks: Seq<CheckReplies>) -> Seq<Heard>
    decreases checks.len(),
{
    if checks.len() == 0 {
        seq![]
    } else {
        checks_heard(checks.drop_last()) + checks.last().heard()
    }
}

impl PhoneReplies {
    pub open spec fn has_shell(self) -> bool {
        field(self.process, "processDescriptor"@) is Some
    }

    /// The windows of the phone: those that the tabs describe, in the order of
    /// the tabs, and behind them that of the parent process.
    pub open spec fn windows(self) -> Seq<Window> {
        let of_tabs = all_described(seq![], self.frames);
        if self.has_shell() {
            with_described(of_tabs, self.shell, "process"@)
        } else {
            of_tabs
        }
    }

    /// One reply for each tab, and for each window.
    pub open spec fn valid(self) -> bool {
        &&& self.frames.len() == list_of(self.tabs, "tabs"@).len()
        &&& self.attached.len() == self.windows().len()
        &&& self.checks.len() == self.windows().len()
    }

    /// The replies that come before the windows are known.
    pub open spec fn described_by(self) -> Seq<Heard> {
        seq![Heard::Reply(self.tabs)] + replies_of(self.frames) + seq![Heard::Reply(self.process)]
            + (if self.has_shell() {
            seq![Heard::Reply(self.shell)]
        } else {
            seq![]
        })
    }

    /// All of it in the order in which a survey asks for it.
    pub open spec fn heard(self) -> Seq<Heard> {
        self.described_by() + replies_of(self.attached) + checks_heard(self.checks)
    }
}

proof fn lemma_surveyed_concat(c: Course, a: Seq<Heard>, b: Seq<Heard>)
    ensures
        surveyed(c, a + b) == surveyed(surveyed(c, a), b),
    decreases b.len(),
{
    if b.len() == 0 {
        assert(a + b =~= a);
    } else {
        lemma_surveyed_concat(c, a, b.drop_last());
        assert((a + b).drop_last() =~= a + b.drop_last());
    }
}

proof fn lemma_surveyed_one(c: Course, h: Heard)
    ensures
        surveyed(c, seq![h]) == (match h {
            Heard::Reply(reply) => advanced(c, reply).0,
            Heard::Length(end) => measured(c, end).0,
        }),
{
    assert(seq![h].drop_last() =~= Seq::<Heard>::empty());
    assert(surveyed(c, seq![h].drop_last()) == c);
}

/// The replies of the first tabs.
proof fn lemma_frames(c: Course, frames: Seq<Doc>)
    requires
        c.stage == Stage::Frames,
        c.at == 0,
        0 < c.tabs.len(),
        frames.len() <= c.tabs.len(),
    ensures
        ({
            let end = surveyed(c, replies_of(frames));
            &&& end.targets == all_described(c.targets, frames)
            &&& end.tabs == c.tabs
            &&& frames.len() < c.tabs.len() ==> end.stage == Stage::Frames && end.at
                == frames.len()
            &&& frames.len() == c.tabs.len() ==> end.stage == Stage::Process
        }),
    decreases frames.len(),
{
    let heard = replies_of(frames);
    if frames.len() > 0 {
        lemma_frames(c, frames.drop_last());
        assert(heard.drop_last() =~= replies_of(frames.drop_last()));
    }
}

proof fn lemma_described(r: PhoneReplies)
    requires
        r.valid(),
    ensures
        ({
            let end = surveyed(Course::start(), r.described_by());
            &&& end.targets == r.windows()
            &&& end.targets.len() == 0 ==> end.stage == Stage::Done
            &&& end.targets.len() > 0 ==> end.stage == Stage::Attach && end.at == 0
        }),
{
    let start = Course::start();
    let one = seq![Heard::Reply(r.tabs)];
    let two = one + replies_of(r.frames);
    let three = two + seq![Heard::Reply(r.process)];
    lemma_surveyed_one(start, Heard::Reply(r.tabs));
    let listed = surveyed(start, one);
    lemma_surveyed_concat(start, one, replies_of(r.frames));
    if r.frames.len() > 0 {
        lemma_frames(listed, r.frames);
    } else {
        assert(replies_of(r.frames) =~= seq![]);
        assert(surveyed(listed, replies_of(r.frames)) == listed);
    }
    let framed = surveyed(start, two);
    assert(framed.stage == Stage::Process);
    assert(framed.targets == all_described(seq![], r.frames));
    lemma_surveyed_concat(start, two, seq![Heard::Reply(r.process)]);
    lemma_surveyed_one(framed, Heard::Reply(r.process));
    if r.has_shell() {
        lemma_surveyed_concat(start, three, seq![Heard::Reply(r.shell)]);
        lemma_surveyed_one(surveyed(start, three), Heard::Reply(r.shell));
    } else {
        assert(three + seq![] =~= three);
    }
}

/// The replies of the first windows that are attached.
proof fn lemma_attached(c: Course, replies: Seq<Doc>)
    requires
        c.stage == Stage::Attach,
        c.at == 0,
        0 < c.targets.len(),
        replies.len() <= c.targets.len(),
    ensures
        ({
            let end = surveyed(c, replies_of(replies));
            &&& end.targets == c.targets
            &&& replies.len() < c.targets.len() ==> end.stage == Stage::Attach && end.at
                == replies.len()
            &&& replies.len() == c.targets.len() ==> end.stage == Stage::Check && end.at == 0
                && end.script == Evaluation::start(c.targets[0].console)
        }),
    decreases replies.len(),
{
    let heard = replies_of(replies);
    if replies.len() > 0 {
        lemma_attached(c, replies.drop_last());
        assert(heard.drop_last() =~= replies_of(replies.drop_last()));
    }
}

/// The check of one window.
proof fn lemma_checked(c: Course, check: CheckReplies)
    requires
        c.stage == Stage::Check,
        0 <= c.at < c.targets.len(),
        c.script == Evaluation::start(c.targets[c.at].console),
    ensures
        ({
            let end = surveyed(c, check.heard());
            &&& end.targets == c.targets.update(c.at, checked(c.targets[c.at], check.answer()))
            &&& c.at + 1 == c.targets.len() ==> end.stage == Stage::Done
            &&& c.at + 1 < c.targets.len() ==> end.stage == Stage::Check && end.at == c.at + 1
                && end.script == Evaluation::start(c.targets[c.at + 1].console)
        }),
{
    let ack = Heard::Reply(check.ack);
    let result = Heard::Reply(check.result);
    lemma_surveyed_one(c, ack);
    let c1 = surveyed(c, seq![ack]);
    lemma_surveyed_concat(c, seq![ack], seq![result]);
    assert(seq![ack] + seq![result] =~= seq![ack, result]);
    lemma_surveyed_one(c1, result);
    let c2 = surveyed(c, seq![ack, result]);
    if answer_of(check.result) is Long {
        let length = Heard::Length(check.length);
        let long = Heard::Reply(check.long);
        lemma_surveyed_concat(c, seq![ack, result], seq![length, long]);
        assert(seq![length] + seq![long] =~= seq![length, long]);
        lemma_surveyed_concat(c2, seq![length], seq![long]);
        lemma_surveyed_one(c2, length);
        lemma_surveyed_one(surveyed(c2, seq![length]), long);
    }
}

/// The checks of the first windows.
proof fn lemma_all_checked(c: Course, checks: Seq<CheckReplies>)
    requires
        c.stage == Stage::Check,
        c.at == 0,
        0 < c.targets.len(),
        c.script == Evaluation::start(c.targets[0].console),
        checks.len() <= c.targets.len(),
    ensures
        ({
            let end = surveyed(c, checks_heard(checks));
            &&& end.targets.len() == c.targets.len()
            &&& forall|i: int|
                0 <= i < c.targets.len() ==> #[trigger] end.targets[i] == (if i < checks.len() {
                    checked(c.targets[i], checks[i].answer())
                } else {
                    c.targets[i]
                })
            &&& checks.len() < c.targets.len() ==> end.stage == Stage::Check && end.at
                == checks.len() && end.script == Evaluation::start(
                c.targets[checks.len() as int].console,
            )
            &&& checks.len() == c.targets.len() ==> end.stage == Stage::Done
        }),
    decreases checks.len(),
{
    if checks.len() > 0 {
        let short = checks.drop_last();
        lemma_all_checked(c, short);
        let before = surveyed(c, checks_heard(short));
        lemma_surveyed_concat(c, checks_heard(short), checks.last().heard());
        lemma_checked(before, checks.last());
    }
}

/// A whole survey: the windows that it finds are those that the tabs describe,
/// in the order of the tabs, and behind them that of the parent process, each
/// with what its own focus check said of it.
pub proof fn law_a_survey_finds_the_windows(r: PhoneReplies)
    requires
        r.valid(),
    ensures
        ({
            let end = surveyed(Course::start(), r.heard());
            &&& end.stage == Stage::Done
            &&& end.targets == Seq::new(
                r.windows().len(),
                |i: int| checked(r.windows()[i], r.checks[i].answer()),
            )
        }),
{
    let start = Course::start();
    let ws = r.windows();
    let want = Seq::new(ws.len(), |i: int| checked(ws[i], r.checks[i].answer()));
    let one = r.described_by();
    let two = one + replies_of(r.attached);
    lemma_described(r);
    lemma_surveyed_concat(start, one, replies_of(r.attached));
    lemma_surveyed_concat(start, two, checks_heard(r.checks));
    if ws.len() == 0 {
        assert(one + replies_of(r.attached) =~= one);
        assert(two + checks_heard(r.checks) =~= one);
        assert(want =~= ws);
    } else {
        lemma_attached(surveyed(start, one), r.attached);
        lemma_all_checked(surveyed(start, two), r.checks);
        assert(surveyed(start, r.heard()).targets =~= want);
    }
}

/// A focus check is answered by the focus and the title with a bar between:
/// `true` and a bar, whatever title follows, says that the window is in front,
/// and `false` that it is not.  The window keeps the title it had, and takes the
/// one in the answer where it had none; nothing else of it changes.
pub proof fn law_an_answer_says_which_window_is_in_front(w: Window, title: Seq<char>)
    ensures
        checked(w, "true"@ + seq!['|'] + title) == (Window {
            actor: w.actor,
            console: w.console,
            url: w.url,
            title: if w.title =~= seq![] {
                title
            } else {
                w.title
            },
            focused: true,
        }),
        checked(w, "false"@ + seq!['|'] + title) == (Window {
            actor: w.actor,
            console: w.console,
            url: w.url,
            title: if w.title =~= seq![] {
                title
            } else {
                w.title
            },
            focused: false,
        }),
{
    reveal_strlit("true");
    reveal_strlit("false");
    law_an_answer_is_cut_at_its_bar(w, "true"@, title);
    law_an_answer_is_cut_at_its_bar(w, "false"@, title);
    assert("false"@.len() != "true"@.len());
}

/// Whatever stands before the first bar of an answer, only `true` says that the
/// window is in front; an answer without a bar says that it is not, and no more.
pub proof fn law_an_answer_is_cut_at_its_bar(w: Window, before: Seq<char>, title: Seq<char>)
    requires
        !before.contains('|'),
    ensures
        checked(w, before + seq!['|'] + title) == (Window {
            actor: w.actor,
            console: w.console,
            url: w.url,
            title: if w.title =~= seq![] {
                title
            } else {
                w.title
            },
            focused: before =~= seq!['t', 'r', 'u', 'e'],
        }),
        checked(w, before) == (Window {
            actor: w.actor,
            console: w.console,
            url: w.url,
            title: w.title,
            focused: false,
        }),
{
    reveal_strlit("true");
    let answer = before + seq!['|'] + title;
    lemma_first_at(answer, '|', 0);
    lemma_first_at(before, '|', 0);
    assert(answer[before.len() as int] == '|');
    if let Some(k) = first_at(answer, '|', 0) {
        if k < before.len() {
            assert(before[k] == '|');
        }
    }
    if let Some(k) = first_at(before, '|', 0) {
        assert(before[k] == '|');
    }
    assert(answer.subrange(0, before.len() as int) =~= before);
    assert(answer.subrange(before.len() as int + 1, answer.len() as int) =~= title);
    assert("true"@ =~= seq!['t', 'r', 'u', 'e']);
}

/// A window is what its description says of it, and is not known to be in front
/// until it has said so itself.
pub proof fn law_a_window_is_what_is_described(
    form: Doc,
    actor: Seq<char>,
    console: Seq<char>,
    url: Seq<char>,
    title: Seq<char>,
)
    requires
        field(form, "actor"@) == Some(Doc::Str(actor)),
        field(form, "consoleActor"@) == Some(Doc::Str(console)),
        field(form, "url"@) == Some(Doc::Str(url)),
        field(form, "title"@) == Some(Doc::Str(title)),
    ensures
        described(form) == (Window { actor, console, url, title, focused: false }),
{
}

/// The windows of tabs that are all described are as many as the tabs, and in
/// their order.
pub proof fn law_every_tab_has_its_window(frames: Seq<Doc>, forms: Seq<Doc>)
    requires
        frames.len() == forms.len(),
        forall|i: int|
            0 <= i < frames.len() ==> field(#[trigger] frames[i], "frame"@) == Some(forms[i]),
    ensures
        all_described(seq![], frames) == Seq::new(forms.len(), |i: int| described(forms[i])),
    decreases frames.len(),
{
    let all = Seq::new(forms.len(), |i: int| described(forms[i]));
    if frames.len() > 0 {
        let short = frames.drop_last();
        let few = forms.drop_last();
        assert forall|i: int| 0 <= i < short.len() implies field(#[trigger] short[i], "frame"@)
            == Some(few[i]) by {
            assert(short[i] == frames[i]);
        }
        law_every_tab_has_its_window(short, few);
        assert(field(frames[frames.len() - 1], "frame"@) == Some(forms.last()));
        assert(Seq::new(few.len(), |i: int| described(few[i])).push(described(forms.last()))
            =~= all);
    } else {
        assert(all =~= seq![]);
    }
}

/// A tab without a description adds no window, and takes none away.
pub proof fn law_a_tab_without_a_window(frames: Seq<Doc>, reply: Doc)
    requires
        field(reply, "frame"@) is None,
    ensures
        all_described(seq![], frames.push(reply)) == all_described(seq![], frames),
{
    assert(frames.push(reply).drop_last() =~= frames);
}

/// What is asked, and of whom.  Each tab of the list is asked for its window, in
/// order; behind the last of them, or where there is none, the root is asked for
/// the parent process, and that for its window; and when the last window is
/// attached, each is asked by its console whether it is in front.
pub proof fn law_what_a_survey_asks(c: Course, reply: Doc, tabs: Seq<Doc>, d: Doc, actor: Seq<char>)
    requires
        c.valid(),
    ensures
        c.stage == Stage::Tabs && field(reply, "tabs"@) == Some(Doc::Arr(tabs)) && tabs.len() > 0
            ==> ({
            let (next, sends) = advanced(c, reply);
            &&& next.stage == Stage::Frames
            &&& sends.len() == tabs.len()
            &&& forall|i: int|
                0 <= i < tabs.len() ==> (field(#[trigger] tabs[i], "actor"@) matches Some(
                    Doc::Str(a),
                ) ==> sends[i] == (Asked { to: a, kind: "getTarget"@, extra: seq![] }))
        }),
        c.stage == Stage::Tabs && !(field(reply, "tabs"@) matches Some(Doc::Arr(_))) || c.stage
            == Stage::Frames && c.at + 1 == c.tabs.len() ==> advanced(c, reply).0.stage
            == Stage::Process && advanced(c, reply).1 == seq![
            Asked { to: "root"@, kind: "getProcess"@, extra: ",\"id\":0"@ },
        ],
        c.stage == Stage::Process && field(reply, "processDescriptor"@) == Some(d) && field(
            d,
            "actor"@,
        ) == Some(Doc::Str(actor)) ==> advanced(c, reply).0.stage == Stage::Shell && advanced(
            c,
            reply,
        ).1 == seq![Asked { to: actor, kind: "getTarget"@, extra: seq![] }],
        c.stage == Stage::Attach && c.at + 1 == c.targets.len() ==> ({
            let (next, sends) = advanced(c, reply);
            &&& next.stage == Stage::Check
            &&& sends.len() == c.targets.len()
            &&& forall|i: int|
                0 <= i < sends.len() ==> #[trigger] sends[i] == evaluation(
                    c.targets[i].console,
                    "document.hasFocus() + '|' + document.title"@,
                )
        }),
{
    if c.stage == Stage::Tabs && field(reply, "tabs"@) == Some(Doc::Arr(tabs)) && tabs.len() > 0 {
        assert(list_of(reply, "tabs"@) == tabs);
    }
}

/// A survey waits for the reply to what it asked: of the root for the tabs and
/// for the process, of each tab, of the process, of each window in turn, and of
/// a window's console for its check; and for nothing once it is over.
pub proof fn law_whom_a_survey_waits_for(c: Course)
    requires
        c.valid(),
    ensures
        c.stage == Stage::Tabs || c.stage == Stage::Process ==> waiting(c) == Some(
            ("root"@, None::<Seq<char>>),
        ),
        c.stage == Stage::Frames ==> waiting(c) == Some((c.tabs[c.at], None::<Seq<char>>)),
        c.stage == Stage::Shell ==> waiting(c) == Some((c.actor, None::<Seq<char>>)),
        c.stage == Stage::Attach ==> waiting(c) == Some(
            (c.targets[c.at].actor, None::<Seq<char>>),
        ),
        c.stage == Stage::Check ==> waiting(c) == c.script.waiting(),
        c.stage == Stage::Done ==> waiting(c) is None,
{
}

/// The request for the parent process is the object that was meant, with the
/// number of the process as a number.
pub proof fn law_the_parent_process_is_number_0(c: Course)
    ensures
        ({
            let r = to_process(c).1[0];
            parsed(request_body(r.to, r.kind, r.extra)) == Some(
                Doc::Obj(
                    seq![
                        ("to"@, Doc::Str("root"@)),
                        ("type"@, Doc::Str("getProcess"@)),
                        ("id"@, Doc::Num(decimal(0))),
                    ],
                ),
            )
        }),
{
    let r = to_process(c).1[0];
    let fields = seq![
        ("to"@, Doc::Str("root"@)),
        ("type"@, Doc::Str("getProcess"@)),
        ("id"@, Doc::Num(decimal(0))),
    ];
    let d = Doc::Obj(fields);
    let none = Seq::<char>::empty();
    law_a_decimal_is_a_number(0);
    lemma_bare_field(d, 0);
    lemma_bare_field(d, 1);
    lemma_bare_field(d, 2);
    assert(written(fields[0].1, none) == quoted("root"@));
    assert(written(fields[1].1, none) == quoted("getProcess"@));
    assert(written(fields[2].1, none) == decimal(0));
    lemma_request_literals();
    lemma_id_literal();
    lemma_layout(
        quoted("to"@),
        quoted("root"@),
        quoted("type"@),
        quoted("getProcess"@),
        quoted("id"@),
        decimal(0),
    );
    assert(fields_written(d, 2, none) =~= quoted("id"@) + seq![':'] + decimal(0));
    assert forall|i: int| 0 <= i < fields.len() implies sound((#[trigger] fields[i]).1) by {}
    lemma_bare_object(fields);
}

proof fn lemma_id_literal()
    ensures
        ",\"id\":0"@ == seq![','] + quoted("id"@) + seq![':'] + decimal(0),
{
    reveal_strlit(",\"id\":0");
    reveal_strlit("id");
    lemma_plain_quoted("id"@);
    assert(decimal(0) =~= seq!['0']) by {
        reveal_with_fuel(decimal, 2);
    }
    assert(",\"id\":0"@ =~= seq![','] + quoted("id"@) + seq![':'] + decimal(0));
}

/// The same pieces in the same order, however they are put together.
proof fn lemma_layout(
    a: Seq<char>,
    b: Seq<char>,
    c: Seq<char>,
    d: Seq<char>,
    e: Seq<char>,
    f: Seq<char>,
)
    ensures
        (seq!['{'] + a + seq![':']) + b + (seq![','] + c + seq![':']) + d + (seq![','] + e + seq![
            ':',
        ] + f) + seq!['}'] == seq!['{'] + (a + seq![':'] + b + (seq![','] + (c + seq![':'] + d + (
        seq![','] + (e + seq![':'] + f))))) + seq!['}'],
{
    let third = e + seq![':'] + f;
    let second = c + seq![':'] + d + (seq![','] + third);
    let first = a + seq![':'] + b + (seq![','] + second);
    let extra = seq![','] + e + seq![':'] + f;
    assert(extra =~= seq![','] + third);
    assert((seq![','] + c + seq![':']) + d + extra =~= seq![','] + second);
    assert((seq!['{'] + a + seq![':']) + b + (seq![','] + c + seq![':']) + d + extra =~= seq!['{']
        + a + seq![':'] + b + ((seq![','] + c + seq![':']) + d + extra));
    assert(seq!['{'] + a + seq![':'] + b + (seq![','] + second) =~= seq!['{'] + first);
}

} // verus!
