//! The life of DSH under the shell: starting it or attaching to it, watching
//! it, and taking down only what the shell itself has started.

use vstd::prelude::*;

use crate::console::{missing_bundle, resolve_launch_url, ChildTail, CHILD_TAIL_CAP};
use crate::json::{Json, JsonView};
use crate::launch::{Once, DSH_BASE, SECOND};
use crate::logs::LogLevel;
use crate::text::{cat, cat3, join_strings, str_contains};
use crate::yaml::{heal_settings, Heal};

verus! {

// ---------------------------------------------------------------------------
// What the boot page is told
// ---------------------------------------------------------------------------

/// A launch attempt has begun.
pub fn status_starting(method: &str) -> (out: Json)
    ensures
        out@ == JsonView::Obj(
            map!["status"@ => JsonView::Str("starting"@), "method"@ => JsonView::Str(method@)],
        ),
{
    Json::object().with("status", Json::str("starting")).with("method", Json::str(method))
}

/// What is said when DSH is up: whether it was there already, and how it was
/// started where that is known.
pub open spec fn ready_view(attached: bool, method: Option<Seq<char>>) -> JsonView {
    let base = map![
        "status"@ => JsonView::Str("ready"@),
        "attached"@ => JsonView::Bool(attached),
    ];
    JsonView::Obj(
        match method {
            Some(m) => base.insert("method"@, JsonView::Str(m)),
            None => base,
        },
    )
}

/// DSH is up.
pub fn status_ready(attached: bool, method: &Option<String>) -> (out: Json)
    ensures
        out@ == ready_view(attached, crate::text::opt_text(*method)),
{
    let base = Json::object().with("status", Json::str("ready")).with(
        "attached",
        Json::Bool(attached),
    );
    match method {
        Some(m) => base.with("method", Json::str(m.as_str())),
        None => base,
    }
}

/// Something went wrong.
pub fn status_error(message: &str) -> (out: Json)
    ensures
        out@ == JsonView::Obj(
            map!["status"@ => JsonView::Str("error"@), "message"@ => JsonView::Str(message@)],
        ),
{
    Json::object().with("status", Json::str("error")).with("message", Json::str(message))
}

/// There is no DSH to start: the user chooses.
pub fn status_notfound() -> (out: Json)
    ensures
        out@ == JsonView::Obj(map!["status"@ => JsonView::Str("notfound"@)]),
{
    Json::object().with("status", Json::str("notfound"))
}

/// How often the page is told that DSH is up. It may still be loading at
/// first, and would miss a single word.
pub const READY_REPEATS: u32 = 10;

/// How often the shell asks on behalf of a page that was loaded anew.
pub const RELOAD_TRIES: u32 = 5;

/// What is done for a page that was loaded anew.
pub enum ReloadStep {
    /// It is told that DSH is up.
    Tell { payload: Json },
    /// The shell asks again.
    Wait,
    /// DSH does not answer: the page is left to the startup.
    Stop,
}

/// What is done for a page that was loaded anew, in short.
pub enum ReloadVerdict {
    Tell,
    Wait,
    Stop,
}

/// What is done for a page that was loaded anew, after so many tries and one
/// more, in which DSH answered or not.
pub open spec fn reload_next(tries: u32, answering: bool) -> ReloadVerdict {
    if tries < RELOAD_TRIES && answering {
        ReloadVerdict::Tell
    } else if tries + 1 < RELOAD_TRIES {
        ReloadVerdict::Wait
    } else {
        ReloadVerdict::Stop
    }
}

/// What is done for a page that was loaded anew, after so many tries and one
/// more, in which DSH answered or not.
pub fn reload_step(tries: u32, answering: bool, state: &DshState) -> (out: ReloadStep)
    ensures
        match reload_next(tries, answering) {
            ReloadVerdict::Tell => out matches ReloadStep::Tell { payload } && payload@
                == ready_view(state@ is None, Some("页面重载"@)),
            ReloadVerdict::Wait => out is Wait,
            ReloadVerdict::Stop => out is Stop,
        },
{
    if tries < RELOAD_TRIES && answering {
        let method = Some("页面重载".to_string());
        ReloadStep::Tell { payload: status_ready(state.is_attached(), &method) }
    } else if tries < RELOAD_TRIES - 1 {
        ReloadStep::Wait
    } else {
        ReloadStep::Stop
    }
}

/// What came of a request to the DSH port.
pub enum ProbeAnswer {
    /// A page was served.
    Served,
    /// The server refused, with a status.
    Refused { status: u16 },
    /// Nobody answered in time.
    Unreachable,
}

/// Whether a server is up on the DSH port. One that refuses is up too: it may
/// want a login first.
pub fn is_answering(answer: &ProbeAnswer) -> (yes: bool)
    ensures
        yes == !(answer is Unreachable),
{
    match answer {
        ProbeAnswer::Served => true,
        ProbeAnswer::Refused { status: _ } => true,
        ProbeAnswer::Unreachable => false,
    }
}

// ---------------------------------------------------------------------------
// The process that the shell owns
// ---------------------------------------------------------------------------

/// The DSH process that the shell has started, if any. Without one the shell
/// is attached to a DSH that is not its own.
pub struct DshState {
    inner: Option<u32>,
}

impl DshState {
    /// The process that the shell owns.
    pub closed spec fn view(&self) -> Option<u32> {
        self.inner
    }

    /// The shell owns nothing yet.
    pub fn new() -> (out: DshState)
        ensures
            out@ is None,
    {
        DshState { inner: None }
    }

    /// Whether the shell is attached to a DSH that is not its own.
    pub fn is_attached(&self) -> (yes: bool)
        ensures
            yes == (self@ is None),
    {
        self.inner.is_none()
    }
}

/// What the shell keeps in mind of DSH during a session.
pub struct Lifecycle {
    state: DshState,
    intentional_stop: bool,
    quick_deaths: u32,
}

/// The meaning of it.
pub struct LifecycleView {
    /// The process that the shell owns.
    pub owned: Option<u32>,
    /// Whether the owned process is being stopped on purpose.
    pub stopping: bool,
    /// How many owned processes in a row died young.
    pub quick_deaths: u32,
}

/// How young a process is that dies young: thirty seconds, in nanoseconds.
pub const QUICK_DEATH: u128 = 30_000_000_000;

/// How many young deaths in a row end the restarts.
pub const QUICK_DEATH_CAP: u32 = 3;

/// What follows when the owned process is gone.
pub enum AfterExit {
    /// Nothing: it was stopped on purpose.
    Quiet,
    /// The user is told, and nothing is started.
    GiveUp { message: String },
    /// DSH is started again.
    Restart,
}

/// The count of young deaths after one more death.
pub open spec fn deaths_after(deaths: u32, lived: u128) -> u32 {
    if lived >= QUICK_DEATH {
        0
    } else if deaths < u32::MAX {
        (deaths + 1) as u32
    } else {
        deaths
    }
}

/// What can happen to the owned process.
pub enum Happening {
    Adopted(u32),
    TornDown,
    Exited { lived: u128 },
}

/// What is kept in mind after it.
pub open spec fn after_happening(v: LifecycleView, h: Happening) -> LifecycleView {
    match h {
        Happening::Adopted(pid) => LifecycleView { owned: Some(pid), stopping: false, ..v },
        Happening::TornDown => LifecycleView { owned: None, stopping: true, ..v },
        Happening::Exited { lived } => if v.stopping {
            v
        } else {
            LifecycleView { quick_deaths: deaths_after(v.quick_deaths, lived), ..v }
        },
    }
}

/// What follows when the owned process is gone, in short.
pub enum ExitVerdict {
    Quiet,
    GiveUp,
    Restart,
}

/// What follows when the owned process is gone after so many nanoseconds.
pub open spec fn exit_verdict(v: LifecycleView, lived: u128) -> ExitVerdict {
    if v.stopping {
        ExitVerdict::Quiet
    } else if deaths_after(v.quick_deaths, lived) >= QUICK_DEATH_CAP {
        ExitVerdict::GiveUp
    } else {
        ExitVerdict::Restart
    }
}

/// What the user is told when the restarts end.
pub open spec fn give_up_message(excerpt: Seq<char>) -> Seq<char> {
    "DSH 反复意外退出,已停止自动重启"@ + (if excerpt.len() == 0 {
        ""@
    } else {
        "\n最近输出: "@ + excerpt
    })
        + "\n完整日志:面板→日志,或 %LOCALAPPDATA%\\dsh-desktop\\dsh.log;可用托盘「重启 dsh web(后端)」重试"@
}

impl Lifecycle {
    /// The meaning of it.
    pub closed spec fn view(&self) -> LifecycleView {
        LifecycleView {
            owned: self.state@,
            stopping: self.intentional_stop,
            quick_deaths: self.quick_deaths,
        }
    }

    /// A new session.
    pub fn new() -> (out: Lifecycle)
        ensures
            out@ == (LifecycleView { owned: None, stopping: false, quick_deaths: 0 }),
    {
        Lifecycle { state: DshState::new(), intentional_stop: false, quick_deaths: 0 }
    }

    /// The process that the shell owns.
    pub fn state(&self) -> (out: &DshState)
        ensures
            out@ == self@.owned,
    {
        &self.state
    }

    /// Takes over a process that the shell has started and that is ready.
    pub fn adopt(&mut self, pid: u32)
        ensures
            final(self)@ == after_happening(old(self)@, Happening::Adopted(pid)),
    {
        self.state = DshState { inner: Some(pid) };
        self.intentional_stop = false;
    }

    /// Stops what the shell owns. Returns the process whose tree is killed;
    /// there is none where the shell is only attached.
    pub fn teardown(&mut self) -> (victim: Option<u32>)
        ensures
            victim == old(self)@.owned,
            final(self)@ == after_happening(old(self)@, Happening::TornDown),
    {
        let victim = self.state.inner;
        self.state = DshState { inner: None };
        self.intentional_stop = true;
        victim
    }

    /// Takes in that the owned process is gone after so many nanoseconds, with
    /// the last of what it printed.
    pub fn child_exited(&mut self, lived: u128, excerpt: &str) -> (next: AfterExit)
        ensures
            final(self)@ == after_happening(old(self)@, Happening::Exited { lived }),
            match exit_verdict(old(self)@, lived) {
                ExitVerdict::Quiet => next is Quiet,
                ExitVerdict::GiveUp => next matches AfterExit::GiveUp { message } && message@
                    == give_up_message(excerpt@),
                ExitVerdict::Restart => next is Restart,
            },
    {
        if self.intentional_stop {
            return AfterExit::Quiet;
        }
        if lived >= QUICK_DEATH {
            self.quick_deaths = 0;
            return AfterExit::Restart;
        }
        if self.quick_deaths < u32::MAX {
            self.quick_deaths = self.quick_deaths + 1;
        }
        if self.quick_deaths < QUICK_DEATH_CAP {
            return AfterExit::Restart;
        }
        let mut message = "DSH 反复意外退出,已停止自动重启".to_string();
        if crate::text::chars_of(excerpt).len() > 0 {
            message.append("\n最近输出: ");
            message.append(excerpt);
        } else {
            message.append("");
        }
        message.append(
            "\n完整日志:面板→日志,或 %LOCALAPPDATA%\\dsh-desktop\\dsh.log;可用托盘「重启 dsh web(后端)」重试",
        );
        assert(message@ =~= give_up_message(excerpt@));
        AfterExit::GiveUp { message }
    }
}

/// What is logged when the owned process is gone.
pub fn exit_line(pid: u32) -> (out: String)
    ensures
        out@ == "supervised dsh web (pid "@ + crate::text::decimal(pid as nat)
            + ") exited unexpectedly; healing"@,
{
    let number = crate::text::decimal_string(pid as u64);
    cat3("supervised dsh web (pid ", number.as_str(), ") exited unexpectedly; healing")
}

/// What is logged when the restarts end.
pub fn give_up_line(pid: u32) -> (out: String)
    ensures
        out@ == "supervised dsh web (pid "@ + crate::text::decimal(pid as nat)
            + ") crashed 3x quickly; auto-respawn stopped"@,
{
    let number = crate::text::decimal_string(pid as u64);
    cat3(
        "supervised dsh web (pid ",
        number.as_str(),
        ") crashed 3x quickly; auto-respawn stopped",
    )
}

/// What is logged of the last words of a process, if it had any.
pub fn last_words_line(excerpt: &str) -> (out: Option<String>)
    ensures
        crate::text::opt_text(out) == (if excerpt@.len() == 0 {
            None
        } else {
            Some("[child] "@ + excerpt@)
        }),
{
    if crate::text::chars_of(excerpt).len() == 0 {
        None
    } else {
        Some(cat("[child] ", excerpt))
    }
}

/// Whether the shell goes on waiting for an old DSH to stop answering: ten
/// seconds at most.
pub open spec fn waits_on(answering: bool, elapsed: u128) -> bool {
    answering && elapsed < 10 * SECOND
}

/// Whether the shell goes on waiting for an old DSH to stop answering.
pub fn keep_waiting(answering: bool, elapsed: u128) -> (yes: bool)
    ensures
        yes == waits_on(answering, elapsed),
{
    answering && elapsed < 10 * SECOND
}

// ---------------------------------------------------------------------------
// What the ownership guarantees
// ---------------------------------------------------------------------------

/// What is kept in mind after a session so far.
pub open spec fn after_session(session: Seq<Happening>) -> LifecycleView
    decreases session.len(),
{
    if session.len() == 0 {
        LifecycleView { owned: None, stopping: false, quick_deaths: 0 }
    } else {
        after_happening(after_session(session.drop_last()), session.last())
    }
}

/// Whether a process was adopted and nothing was adopted or torn down since.
pub open spec fn last_adopted(session: Seq<Happening>, pid: u32) -> bool {
    exists|k: int|
        0 <= k < session.len() && #[trigger] session[k] == Happening::Adopted(pid) && forall|j: int|
            k < j < session.len() ==> (#[trigger] session[j]) is Exited
}

/// Teardown kills exactly the process that the shell started last and has not
/// torn down since. Where the shell only attached, it kills nothing.
pub proof fn law_teardown_kills_only_what_was_started(session: Seq<Happening>, pid: u32)
    ensures
        after_session(session).owned == Some(pid) <==> last_adopted(session, pid),
        (forall|k: int| 0 <= k < session.len() ==> !((#[trigger] session[k]) is Adopted))
            ==> after_session(session).owned is None,
    decreases session.len(),
{
    if session.len() > 0 {
        let front = session.drop_last();
        let last = session.len() - 1;
        law_teardown_kills_only_what_was_started(front, pid);
        if last_adopted(session, pid) {
            let k = choose|k: int|
                0 <= k < session.len() && #[trigger] session[k] == Happening::Adopted(pid)
                    && forall|j: int| k < j < session.len() ==> (#[trigger] session[j]) is Exited;
            if k < last {
                assert(session[last] is Exited);
                assert(front[k] == session[k]);
                assert forall|j: int| k < j < front.len() implies (#[trigger] front[j]) is Exited by {
                    assert(front[j] == session[j]);
                }
                assert(last_adopted(front, pid));
            }
        }
        if after_session(session).owned == Some(pid) {
            if session[last] is Exited {
                let k = choose|k: int|
                    0 <= k < front.len() && #[trigger] front[k] == Happening::Adopted(pid)
                        && forall|j: int| k < j < front.len() ==> (#[trigger] front[j]) is Exited;
                assert(session[k] == front[k]);
                assert forall|j: int| k < j < session.len() implies (#[trigger] session[j])
                    is Exited by {
                    if j < last {
                        assert(front[j] == session[j]);
                    }
                }
                assert(last_adopted(session, pid));
            } else {
                assert(session[last] == Happening::Adopted(pid));
                assert(last_adopted(session, pid));
            }
        }
        if forall|k: int| 0 <= k < session.len() ==> !((#[trigger] session[k]) is Adopted) {
            assert forall|k: int| 0 <= k < front.len() implies !((#[trigger] front[k]) is Adopted) by {
                assert(front[k] == session[k]);
            }
            assert(!(session[last] is Adopted));
        }
    }
}

/// The count of young deaths after a run of unexpected deaths.
pub open spec fn deaths_over(count: u32, lives: Seq<u128>) -> u32
    decreases lives.len(),
{
    if lives.len() == 0 {
        count
    } else {
        deaths_after(deaths_over(count, lives.drop_last()), lives.last())
    }
}

/// How many of the last lives in a row were short.
pub open spec fn young_streak(lives: Seq<u128>) -> nat
    decreases lives.len(),
{
    if lives.len() == 0 || lives.last() >= QUICK_DEATH {
        0
    } else {
        young_streak(lives.drop_last()) + 1
    }
}

/// How long the processes lived that died unexpectedly in a session.
pub open spec fn unexpected_lives(session: Seq<Happening>) -> Seq<u128>
    decreases session.len(),
{
    if session.len() == 0 {
        Seq::empty()
    } else {
        let before = unexpected_lives(session.drop_last());
        match session.last() {
            Happening::Exited { lived } if !after_session(session.drop_last()).stopping =>
                before.push(lived),
            _ => before,
        }
    }
}

proof fn lemma_deaths_are_the_streak(lives: Seq<u128>)
    ensures
        young_streak(lives) <= lives.len(),
        deaths_over(0, lives) == (if young_streak(lives) < u32::MAX {
            young_streak(lives) as int
        } else {
            u32::MAX as int
        }),
    decreases lives.len(),
{
    if lives.len() > 0 {
        lemma_deaths_are_the_streak(lives.drop_last());
    }
}

proof fn lemma_session_deaths(session: Seq<Happening>)
    ensures
        after_session(session).quick_deaths == deaths_over(0, unexpected_lives(session)),
    decreases session.len(),
{
    if session.len() > 0 {
        lemma_session_deaths(session.drop_last());
        let before = unexpected_lives(session.drop_last());
        match session.last() {
            Happening::Exited { lived } => {
                assert(before.push(lived).drop_last() =~= before);
            },
            _ => {},
        }
    }
}

/// Whatever happened in a session, and however often a process was adopted in
/// between: the restarts end exactly when at least the last three unexpected
/// deaths were young.
pub proof fn law_three_young_deaths_end_the_restarts(session: Seq<Happening>)
    ensures
        after_session(session).quick_deaths >= QUICK_DEATH_CAP <==> young_streak(
            unexpected_lives(session),
        ) >= 3,
{
    lemma_session_deaths(session);
    lemma_deaths_are_the_streak(unexpected_lives(session));
}

/// A process that lived long enough clears the count, so the next young death
/// is the first.
pub proof fn law_a_long_life_clears_the_count(deaths: u32, long: u128, young: u128)
    requires
        long >= QUICK_DEATH,
        young < QUICK_DEATH,
    ensures
        deaths_after(deaths_after(deaths, long), young) == 1,
{
}

// ---------------------------------------------------------------------------
// The startup
// ---------------------------------------------------------------------------

/// What startup does first.
pub enum FirstStep {
    /// DSH is up already: the shell attaches to it.
    Attach,
    /// The launch chain is built and tried.
    Launch,
}

/// What startup does first: a DSH that answers is left alone.
pub fn first_step(answering: bool) -> (out: FirstStep)
    ensures
        out is Attach <==> answering,
{
    if answering {
        FirstStep::Attach
    } else {
        FirstStep::Launch
    }
}

/// What startup does next.
pub enum StartStep {
    /// There is nothing to try: the user chooses.
    NotFound,
    /// A candidate is tried.
    Try { index: usize },
    /// All have failed.
    Failed { message: String },
}

/// A run through the launch chain.
pub struct StartRun {
    labels: Vec<String>,
    failures: Vec<String>,
}

/// The line that reports a failed candidate.
pub open spec fn failure_line(label: Seq<char>, reason: Seq<char>) -> Seq<char> {
    "「"@ + label + "」"@ + reason
}

/// The lines that report the failed candidates.
pub open spec fn failure_lines(labels: Seq<Seq<char>>, reasons: Seq<Seq<char>>) -> Seq<Seq<char>> {
    Seq::new(reasons.len(), |i: int| failure_line(labels[i], reasons[i]))
}

/// The report that all candidates have failed.
pub open spec fn failure_report(labels: Seq<Seq<char>>, reasons: Seq<Seq<char>>) -> Seq<char> {
    "所有启动方式均失败:\n"@ + crate::text::join(failure_lines(labels, reasons), "\n"@)
}

/// The line that reports a failed candidate.
pub fn failure_text(label: &str, reason: &str) -> (out: String)
    ensures
        out@ == failure_line(label@, reason@),
{
    let mut out = cat3("「", label, "」");
    out.append(reason);
    out
}

/// The meaning of what startup does next.
pub enum StartView {
    NotFound,
    Try { index: int },
    Failed { message: Seq<char> },
}

/// What startup does next, from the labels of the chain and the reports of the
/// candidates that have failed.
pub open spec fn start_next(labels: Seq<Seq<char>>, failures: Seq<Seq<char>>) -> StartView {
    if labels.len() == 0 {
        StartView::NotFound
    } else if failures.len() < labels.len() {
        StartView::Try { index: failures.len() as int }
    } else {
        StartView::Failed {
            message: "所有启动方式均失败:\n"@ + crate::text::join(failures, "\n"@),
        }
    }
}

impl StartStep {
    /// The meaning of it.
    pub open spec fn view(&self) -> StartView {
        match *self {
            StartStep::NotFound => StartView::NotFound,
            StartStep::Try { index } => StartView::Try { index: index as int },
            StartStep::Failed { message } => StartView::Failed { message: message@ },
        }
    }
}

impl StartRun {
    /// The labels of the chain.
    pub closed spec fn labels(&self) -> Seq<Seq<char>> {
        crate::text::strings(self.labels@)
    }

    /// The lines that report the candidates that have failed so far.
    pub closed spec fn failures(&self) -> Seq<Seq<char>> {
        crate::text::strings(self.failures@)
    }

    #[verifier::type_invariant]
    spec fn within(&self) -> bool {
        self.failures@.len() <= self.labels@.len()
    }

    /// A run through a chain with the given labels.
    pub fn new(labels: Vec<String>) -> (out: StartRun)
        ensures
            out.labels() == crate::text::strings(labels@),
            out.failures() == Seq::<Seq<char>>::empty(),
    {
        let failures: Vec<String> = Vec::new();
        assert(crate::text::strings(failures@) =~= Seq::<Seq<char>>::empty());
        StartRun { labels, failures }
    }

    /// What comes next: the first candidate that was not tried yet.
    pub fn next(&self) -> (out: StartStep)
        ensures
            out@ == start_next(self.labels(), self.failures()),
            match out {
                StartStep::NotFound => self.labels().len() == 0,
                StartStep::Try { index } => index == self.failures().len() && index
                    < self.labels().len(),
                StartStep::Failed { message } => self.labels().len() > 0 && self.failures().len()
                    == self.labels().len() && message@ == "所有启动方式均失败:\n"@
                    + crate::text::join(self.failures(), "\n"@),
            },
    {
        proof {
            use_type_invariant(self);
        }
        if self.labels.len() == 0 {
            StartStep::NotFound
        } else if self.failures.len() < self.labels.len() {
            StartStep::Try { index: self.failures.len() }
        } else {
            let list = join_strings(self.failures.as_slice(), "\n");
            StartStep::Failed { message: cat("所有启动方式均失败:\n", list.as_str()) }
        }
    }

    /// Takes in that the candidate that is tried has failed.
    pub fn failed(&mut self, reason: &str)
        requires
            old(self).failures().len() < old(self).labels().len(),
        ensures
            final(self).labels() == old(self).labels(),
            final(self).failures() == old(self).failures().push(
                failure_line(
                    old(self).labels()[old(self).failures().len() as int],
                    reason@,
                ),
            ),
    {
        let line = failure_text(self.labels[self.failures.len()].as_str(), reason);
        let mut failures: Vec<String> = Vec::new();
        std::mem::swap(&mut failures, &mut self.failures);
        failures.push(line);
        assert(crate::text::strings(failures@) =~= crate::text::strings(old(self).failures@).push(
            line@,
        ));
        self.failures = failures;
    }
}

/// The reports after some candidates have failed, each for its own reason.
pub open spec fn failures_after(labels: Seq<Seq<char>>, reasons: Seq<Seq<char>>) -> Seq<Seq<char>>
    decreases reasons.len(),
{
    if reasons.len() == 0 {
        Seq::empty()
    } else {
        let before = failures_after(labels, reasons.drop_last());
        before.push(failure_line(labels[before.len() as int], reasons.last()))
    }
}

/// Every candidate is tried once and in order, and the report names each one
/// with its own reason.
pub proof fn law_candidates_are_tried_once_and_in_order(
    labels: Seq<Seq<char>>,
    reasons: Seq<Seq<char>>,
)
    requires
        reasons.len() <= labels.len(),
    ensures
        failures_after(labels, reasons) == failure_lines(labels, reasons),
        failures_after(labels, reasons).len() == reasons.len(),
        "所有启动方式均失败:\n"@ + crate::text::join(failures_after(labels, reasons), "\n"@)
            == failure_report(labels, reasons),
    decreases reasons.len(),
{
    if reasons.len() > 0 {
        law_candidates_are_tried_once_and_in_order(labels, reasons.drop_last());
        assert(failures_after(labels, reasons) =~= failure_lines(labels, reasons));
    }
}

// ---------------------------------------------------------------------------
// Trying one candidate
// ---------------------------------------------------------------------------

/// How the started process is doing.
pub enum ChildState {
    Running,
    /// It is over; how, in words.
    Exited { status: String },
    /// Its state could not be read.
    Unknown { error: String },
}

/// What the shell found out while it tries a candidate.
pub enum TrialEvent {
    /// The process was started.
    Spawned,
    /// The process could not be started.
    NotSpawned { error: String },
    /// The state of things: whether DSH answers, how the process is doing, and
    /// for how long it runs, in nanoseconds.
    Polled { answering: bool, child: ChildState, elapsed: u128 },
    /// Whether the settings file was mended.
    Healed { mended: bool },
    /// Whether the missing package was installed.
    Repaired { installed: bool },
    /// The process was killed.
    Killed,
}

/// What the shell does while it tries a candidate.
pub enum TrialAction {
    /// Starts the process, with nothing left of what an earlier one printed.
    Spawn,
    /// Looks whether DSH answers and how the process is doing.
    Poll,
    /// Looks again after a second.
    Sleep,
    /// Looks whether the settings file can be mended.
    Heal,
    /// Installs a missing package.
    Repair { pkg: String },
    /// Kills the process tree.
    Kill,
    /// The process is DSH and ready: the shell takes it over.
    Adopt,
    /// The candidate has failed.
    Fail { reason: String },
}

/// Where a trial stands.
pub enum Stage {
    Spawning,
    Polling,
    Healing { status: String, tail: Vec<String> },
    Repairing { status: String, tail: Vec<String>, pkg: String },
    Killing,
    Over,
}

/// One candidate being tried. After a repair it gets a second attempt.
pub struct Trial {
    /// How long it may take to become ready, in seconds.
    window: u64,
    second: bool,
    stage: Stage,
}

/// Where a trial stands.
pub enum StageView {
    Spawning,
    Polling,
    Healing { status: Seq<char>, tail: Seq<Seq<char>> },
    Repairing { status: Seq<char>, tail: Seq<Seq<char>>, pkg: Seq<char> },
    Killing,
    Over,
}

/// The meaning of a trial.
pub struct TrialView {
    pub window: u64,
    pub second: bool,
    pub stage: StageView,
}

/// The meaning of an action.
pub enum ActionView {
    Spawn,
    Poll,
    Sleep,
    Heal,
    Repair { pkg: Seq<char> },
    Kill,
    Adopt,
    Fail { reason: Seq<char> },
}

impl Stage {
    /// The meaning of the stage.
    pub open spec fn view(&self) -> StageView {
        match self {
            Stage::Spawning => StageView::Spawning,
            Stage::Polling => StageView::Polling,
            Stage::Healing { status, tail } => StageView::Healing {
                status: status@,
                tail: crate::text::strings(tail@),
            },
            Stage::Repairing { status, tail, pkg } => StageView::Repairing {
                status: status@,
                tail: crate::text::strings(tail@),
                pkg: pkg@,
            },
            Stage::Killing => StageView::Killing,
            Stage::Over => StageView::Over,
        }
    }
}

impl TrialAction {
    /// The meaning of the action.
    pub open spec fn view(&self) -> ActionView {
        match self {
            TrialAction::Spawn => ActionView::Spawn,
            TrialAction::Poll => ActionView::Poll,
            TrialAction::Sleep => ActionView::Sleep,
            TrialAction::Heal => ActionView::Heal,
            TrialAction::Repair { pkg } => ActionView::Repair { pkg: pkg@ },
            TrialAction::Kill => ActionView::Kill,
            TrialAction::Adopt => ActionView::Adopt,
            TrialAction::Fail { reason } => ActionView::Fail { reason: reason@ },
        }
    }
}

/// The reason when the process ended early.
pub open spec fn early_exit(status: Seq<char>, tail: Seq<Seq<char>>) -> Seq<char> {
    "进程提前退出("@ + status + ")"@ + (if tail.len() == 0 {
        ""@
    } else {
        "\n"@ + crate::text::join(tail, "\n"@)
    }) + "\n"@
}

/// The reason when a package is missing and could not be installed.
pub open spec fn bundle_missing(
    status: Seq<char>,
    tail: Seq<Seq<char>>,
    pkg: Seq<char>,
) -> Seq<char> {
    "进程提前退出("@ + status + ")——缺少 profile 包 "@ + pkg
        + "(疑似 pnpm 新发布冷却期拦截)\n手动修复:在 %USERPROFILE%\\.dsh\\profiles\\web 执行 pnpm add --save-exact "@
        + pkg
        + " --config.minimumReleaseAge=0\n完整日志:面板→日志,或 %LOCALAPPDATA%\\dsh-desktop\\dsh.log\n"@
        + crate::text::join(tail, "\n"@)
}

/// The reason when the time is up.
pub open spec fn too_slow(excerpt: Seq<char>) -> Seq<char> {
    "就绪超时"@ + (if excerpt.len() == 0 {
        ""@
    } else {
        ",最后输出: "@ + excerpt
    }) + "\n"@
}

/// A one-line digest of the last lines that were printed.
pub open spec fn digest(printed: Seq<Seq<char>>, n: nat) -> Seq<char> {
    crate::text::join(crate::console::last_n(printed, n), " ⏎ "@)
}

/// The stage and the action that follow, from what was found out and what the
/// process has printed so far. `None` where the event does not belong to the
/// stage.
pub open spec fn trial_step(
    trial: TrialView,
    event: TrialEvent,
    printed: Seq<Seq<char>>,
) -> Option<(TrialView, ActionView)> {
    let over = |reason: Seq<char>| Some(
        (TrialView { stage: StageView::Over, ..trial }, ActionView::Fail { reason }),
    );
    let again = Some(
        (
            TrialView { second: true, stage: StageView::Spawning, ..trial },
            ActionView::Spawn,
        ),
    );
    match (trial.stage, event) {
        (StageView::Spawning, TrialEvent::Spawned) => Some(
            (TrialView { stage: StageView::Polling, ..trial }, ActionView::Poll),
        ),
        (StageView::Spawning, TrialEvent::NotSpawned { error }) => over(
            "无法启动("@ + error@ + ")\n"@,
        ),
        (StageView::Polling, TrialEvent::Polled { answering, child, elapsed }) => if answering {
            Some((TrialView { stage: StageView::Over, ..trial }, ActionView::Adopt))
        } else {
            match child {
                ChildState::Exited { status } => {
                    let tail = crate::console::last_n(printed, 8);
                    if trial.second {
                        over(early_exit(status@, tail))
                    } else {
                        Some(
                            (
                                TrialView {
                                    stage: StageView::Healing { status: status@, tail },
                                    ..trial
                                },
                                ActionView::Heal,
                            ),
                        )
                    }
                },
                ChildState::Unknown { error } => over("无法查询子进程("@ + error@ + ")\n"@),
                ChildState::Running => if elapsed >= trial.window * SECOND {
                    Some((TrialView { stage: StageView::Killing, ..trial }, ActionView::Kill))
                } else {
                    Some((trial, ActionView::Sleep))
                },
            }
        },
        (StageView::Healing { status, tail }, TrialEvent::Healed { mended }) => if mended {
            again
        } else {
            match crate::console::bundle_upto(tail, tail.len()) {
                Some(pkg) => Some(
                    (
                        TrialView { stage: StageView::Repairing { status, tail, pkg }, ..trial },
                        ActionView::Repair { pkg },
                    ),
                ),
                None => over(early_exit(status, tail)),
            }
        },
        (StageView::Repairing { status, tail, pkg }, TrialEvent::Repaired { installed }) =>
            if installed {
                again
            } else {
                over(bundle_missing(status, tail, pkg))
            },
        (StageView::Killing, TrialEvent::Killed) => over(too_slow(digest(printed, 4))),
        _ => None,
    }
}

/// The trial as it begins.
pub open spec fn trial_start(window: u64) -> TrialView {
    TrialView { window, second: false, stage: StageView::Spawning }
}

fn early_exit_text(status: &str, tail: &Vec<String>) -> (out: String)
    ensures
        out@ == early_exit(status@, crate::text::strings(tail@)),
{
    let mut out = cat3("进程提前退出(", status, ")");
    if tail.len() > 0 {
        out.append("\n");
        out.append(join_strings(tail.as_slice(), "\n").as_str());
    } else {
        out.append("");
    }
    out.append("\n");
    assert(out@ =~= early_exit(status@, crate::text::strings(tail@)));
    out
}

fn bundle_missing_text(status: &str, tail: &Vec<String>, pkg: &str) -> (out: String)
    ensures
        out@ == bundle_missing(status@, crate::text::strings(tail@), pkg@),
{
    let mut out = cat3("进程提前退出(", status, ")——缺少 profile 包 ");
    out.append(pkg);
    out.append(
        "(疑似 pnpm 新发布冷却期拦截)\n手动修复:在 %USERPROFILE%\\.dsh\\profiles\\web 执行 pnpm add --save-exact ",
    );
    out.append(pkg);
    out.append(
        " --config.minimumReleaseAge=0\n完整日志:面板→日志,或 %LOCALAPPDATA%\\dsh-desktop\\dsh.log\n",
    );
    out.append(join_strings(tail.as_slice(), "\n").as_str());
    out
}

fn too_slow_text(excerpt: &str) -> (out: String)
    ensures
        out@ == too_slow(excerpt@),
{
    let mut out = "就绪超时".to_string();
    if crate::text::chars_of(excerpt).len() > 0 {
        out.append(",最后输出: ");
        out.append(excerpt);
    } else {
        out.append("");
    }
    out.append("\n");
    assert(out@ =~= too_slow(excerpt@));
    out
}

impl Trial {
    /// The meaning of the trial.
    pub closed spec fn view(&self) -> TrialView {
        TrialView { window: self.window, second: self.second, stage: self.stage@ }
    }

    /// A trial of a candidate that may take so many seconds. Its process is to
    /// be started.
    pub fn new(window: u64) -> (out: Trial)
        ensures
            out@ == trial_start(window),
    {
        Trial { window, second: false, stage: Stage::Spawning }
    }

    /// Whether the trial is in its second attempt.
    pub fn is_second(&self) -> (yes: bool)
        ensures
            yes == self@.second,
    {
        self.second
    }

    fn died(self, status: String, printed: &ChildTail) -> (out: (Trial, TrialAction))
        ensures
            ({
                let tail = crate::console::last_n(printed@, 8);
                if self@.second {
                    &&& out.0@ == (TrialView { stage: StageView::Over, ..self@ })
                    &&& out.1@ == (ActionView::Fail { reason: early_exit(status@, tail) })
                } else {
                    &&& out.0@ == (TrialView {
                        stage: StageView::Healing { status: status@, tail },
                        ..self@
                    })
                    &&& out.1@ == ActionView::Heal
                }
            }),
    {
        let tail = printed.last(8);
        if self.second {
            let reason = early_exit_text(status.as_str(), &tail);
            (
                Trial { window: self.window, second: true, stage: Stage::Over },
                TrialAction::Fail { reason },
            )
        } else {
            (
                Trial {
                    window: self.window,
                    second: false,
                    stage: Stage::Healing { status, tail },
                },
                TrialAction::Heal,
            )
        }
    }

    fn polled(
        self,
        answering: bool,
        child: ChildState,
        elapsed: u128,
        printed: &ChildTail,
    ) -> (out: (Trial, TrialAction))
        requires
            self@.stage is Polling,
        ensures
            Some((out.0@, out.1@)) == trial_step(
                self@,
                TrialEvent::Polled { answering, child, elapsed },
                printed@,
            ),
    {
        let window = self.window;
        let second = self.second;
        if answering {
            return (Trial { window, second, stage: Stage::Over }, TrialAction::Adopt);
        }
        match child {
            ChildState::Exited { status } => self.died(status, printed),
            ChildState::Unknown { error } => {
                let reason = cat3("无法查询子进程(", error.as_str(), ")\n");
                (Trial { window, second, stage: Stage::Over }, TrialAction::Fail { reason })
            },
            ChildState::Running => {
                if elapsed >= window as u128 * SECOND {
                    (Trial { window, second, stage: Stage::Killing }, TrialAction::Kill)
                } else {
                    (self, TrialAction::Sleep)
                }
            },
        }
    }

    /// Takes in what was found out, with what the process has printed so far,
    /// and tells what is done next. `None` where the event does not belong to
    /// what was done last.
    pub fn step(self, event: TrialEvent, printed: &ChildTail) -> (out: Option<
        (Trial, TrialAction),
    >)
        ensures
            match out {
                Some((next, action)) => trial_step(self@, event, printed@) == Some(
                    (next@, action@),
                ),
                None => trial_step(self@, event, printed@) is None,
            },
    {
        let window = self.window;
        let second = self.second;
        match (self.stage, event) {
            (Stage::Spawning, TrialEvent::Spawned) => Some(
                (Trial { window, second, stage: Stage::Polling }, TrialAction::Poll),
            ),
            (Stage::Spawning, TrialEvent::NotSpawned { error }) => {
                let reason = cat3("无法启动(", error.as_str(), ")\n");
                Some((Trial { window, second, stage: Stage::Over }, TrialAction::Fail { reason }))
            },
            (Stage::Polling, TrialEvent::Polled { answering, child, elapsed }) => {
                let trial = Trial { window, second, stage: Stage::Polling };
                Some(trial.polled(answering, child, elapsed, printed))
            },
            (Stage::Healing { status, tail }, TrialEvent::Healed { mended }) => {
                if mended {
                    return Some(
                        (
                            Trial { window, second: true, stage: Stage::Spawning },
                            TrialAction::Spawn,
                        ),
                    );
                }
                match missing_bundle(&tail) {
                    Some(pkg) => {
                        let action = TrialAction::Repair { pkg: pkg.clone() };
                        let stage = Stage::Repairing { status, tail, pkg };
                        Some((Trial { window, second, stage }, action))
                    },
                    None => {
                        let reason = early_exit_text(status.as_str(), &tail);
                        Some(
                            (
                                Trial { window, second, stage: Stage::Over },
                                TrialAction::Fail { reason },
                            ),
                        )
                    },
                }
            },
            (Stage::Repairing { status, tail, pkg }, TrialEvent::Repaired { installed }) => {
                if installed {
                    return Some(
                        (
                            Trial { window, second: true, stage: Stage::Spawning },
                            TrialAction::Spawn,
                        ),
                    );
                }
                let reason = bundle_missing_text(status.as_str(), &tail, pkg.as_str());
                Some((Trial { window, second, stage: Stage::Over }, TrialAction::Fail { reason }))
            },
            (Stage::Killing, TrialEvent::Killed) => {
                let reason = too_slow_text(printed.excerpt(4).as_str());
                Some((Trial { window, second, stage: Stage::Over }, TrialAction::Fail { reason }))
            },
            _ => None,
        }
    }
}

/// What is logged when the process ended early and had said something.
pub fn early_exit_line(status: &str, printed: &ChildTail) -> (out: Option<String>)
    ensures
        crate::text::opt_text(out) == (if digest(printed@, 4).len() == 0 {
            None
        } else {
            Some(
                "candidate died early ("@ + status@ + "); last output: "@ + digest(printed@, 4),
            )
        }),
{
    let excerpt = printed.excerpt(4);
    if crate::text::chars_of(excerpt.as_str()).len() == 0 {
        None
    } else {
        let mut out = cat3("candidate died early (", status, "); last output: ");
        out.append(excerpt.as_str());
        Some(out)
    }
}

/// What is logged when a candidate is tried again because a package was
/// installed.
pub fn repaired_line(pkg: &str) -> (out: String)
    ensures
        out@ == "bundle repair installed "@ + pkg@ + "; retrying the same candidate"@,
{
    cat3("bundle repair installed ", pkg, "; retrying the same candidate")
}

// ---------------------------------------------------------------------------
// What a trial guarantees
// ---------------------------------------------------------------------------

/// Only a first attempt is healed or repaired.
pub open spec fn sound(trial: TrialView) -> bool {
    trial.stage is Healing || trial.stage is Repairing ==> !trial.second
}

/// How often the process is started again while these things are found out,
/// each with what was printed by then.
pub open spec fn restarts(trial: TrialView, found: Seq<(TrialEvent, Seq<Seq<char>>)>) -> nat
    decreases found.len(),
{
    if found.len() == 0 {
        0
    } else {
        match trial_step(trial, found[0].0, found[0].1) {
            Some((next, action)) => restarts(next, found.drop_first()) + if action is Spawn {
                1nat
            } else {
                0nat
            },
            None => 0,
        }
    }
}

proof fn lemma_restarts(trial: TrialView, found: Seq<(TrialEvent, Seq<Seq<char>>)>)
    requires
        sound(trial),
    ensures
        restarts(trial, found) <= (if trial.second {
            0nat
        } else {
            1nat
        }),
    decreases found.len(),
{
    if found.len() > 0 {
        match trial_step(trial, found[0].0, found[0].1) {
            Some((next, _)) => {
                lemma_restarts(next, found.drop_first());
            },
            None => {},
        }
    }
}

/// A candidate is started at most twice, whatever happens.
pub proof fn law_a_candidate_is_started_at_most_twice(
    window: u64,
    found: Seq<(TrialEvent, Seq<Seq<char>>)>,
)
    ensures
        restarts(trial_start(window), found) <= 1,
{
    lemma_restarts(trial_start(window), found);
}

/// A process is taken over only when DSH answers, killed only when its time is
/// up, and started again only after a repair that worked.
pub proof fn law_every_step_has_its_reason(
    trial: TrialView,
    event: TrialEvent,
    printed: Seq<Seq<char>>,
)
    ensures
        match trial_step(trial, event, printed) {
            Some((_, ActionView::Adopt)) => event matches TrialEvent::Polled { answering, .. }
                && answering,
            Some((_, ActionView::Kill)) => event matches TrialEvent::Polled {
                answering,
                child,
                elapsed,
            } && !answering && child is Running && elapsed >= trial.window * SECOND,
            Some((_, ActionView::Spawn)) => event == (TrialEvent::Healed { mended: true }) || event
                == (TrialEvent::Repaired { installed: true }),
            _ => true,
        },
{
}

/// A trial that is over stays over.
pub proof fn law_a_trial_ends_with_its_verdict(
    trial: TrialView,
    event: TrialEvent,
    printed: Seq<Seq<char>>,
)
    ensures
        match trial_step(trial, event, printed) {
            Some((next, action)) => next.stage is Over <==> action is Adopt || action is Fail,
            None => true,
        },
        trial.stage is Over ==> trial_step(trial, event, printed) is None,
{
}

// ---------------------------------------------------------------------------
// Mending the settings
// ---------------------------------------------------------------------------

/// Decides about the settings file, from its text where it could be read. It
/// is looked at once per session: whatever comes of it, the one time is used.
pub fn plan_heal(once: &mut Once, text: &Option<String>) -> (out: Heal)
    ensures
        final(once)@,
        match *text {
            Some(t) if !old(once)@ => {
                let valid = crate::yaml::yaml_valid(t@);
                let mended = crate::yaml::fixed(t@);
                &&& out@ == crate::yaml::heal_of(t@)
                &&& valid <==> out is Healthy
                &&& !valid && !crate::yaml::yaml_valid(mended) <==> out is Hopeless
                &&& out matches Heal::Repaired(r) ==> r@ == mended
            },
            _ => out is Healthy,
        },
{
    let first = once.claim();
    match text {
        Some(t) => if first {
            heal_settings(t.as_str())
        } else {
            Heal::Healthy
        },
        None => Heal::Healthy,
    }
}

/// What is logged of an attempt to mend the settings file.
pub struct HealNote {
    pub level: LogLevel,
    pub line: String,
}

/// Whether the settings file is backed up: before anything else is done about
/// one that does not parse.
pub fn wants_backup(heal: &Heal) -> (yes: bool)
    ensures
        yes == !(heal is Healthy),
{
    match heal {
        Heal::Healthy => false,
        Heal::Hopeless => true,
        Heal::Repaired(_) => true,
    }
}

/// The text that is written to the settings file: the mended one, and only
/// where the file was backed up.
pub fn text_to_write(heal: &Heal, backup_error: &Option<String>) -> (out: Option<String>)
    ensures
        match (*heal, *backup_error) {
            (Heal::Repaired(text), None) => out matches Some(t) && t@ == text@,
            _ => out is None,
        },
{
    match (heal, backup_error) {
        (Heal::Repaired(text), None) => Some(text.clone()),
        _ => None,
    }
}

/// What went wrong with a settings file that can be mended: the backup, or
/// else the writing.
pub open spec fn heal_error(
    backup_error: Option<Seq<char>>,
    write_error: Option<Seq<char>>,
) -> Option<Seq<char>> {
    if backup_error is Some {
        backup_error
    } else {
        write_error
    }
}

/// Whether the settings file was mended, and what is logged of it. The errors
/// are those of the backup and of writing the mended text.
pub fn heal_outcome(
    heal: &Heal,
    backup_error: &Option<String>,
    write_error: &Option<String>,
    path: &str,
    backup: &str,
) -> (out: (bool, Option<HealNote>))
    ensures
        ({
            let error = heal_error(
                crate::text::opt_text(*backup_error),
                crate::text::opt_text(*write_error),
            );
            &&& out.0 == (heal is Repaired && error is None)
            &&& match (*heal, error) {
                (Heal::Healthy, _) => out.1 is None,
                (Heal::Hopeless, _) => out.1 matches Some(note) && note.level == LogLevel::Error
                    && note.line@
                    == "[dsh-desktop] settings.yaml 解析失败且冒号空格修复无效;手动编辑 "@ + path@
                    + " 保证每个 key: 后有空格(原文件已备份 "@ + backup@ + ")"@,
                (Heal::Repaired(_), None) => out.1 matches Some(note) && note.level
                    == LogLevel::Warn && note.line@
                    == "[dsh-desktop] settings.yaml 自动修复:为缺失空格的 key: 补空格(疑似 Web UI 序列化器缺陷,建议反馈);原文件备份 "@
                    + backup@,
                (Heal::Repaired(_), Some(e)) => out.1 matches Some(note) && note.level
                    == LogLevel::Error && note.line@ == "[dsh-desktop] settings.yaml 修复写入失败:"@
                    + e,
            }
        }),
{
    match heal {
        Heal::Healthy => (false, None),
        Heal::Hopeless => {
            let mut line = cat3(
                "[dsh-desktop] settings.yaml 解析失败且冒号空格修复无效;手动编辑 ",
                path,
                " 保证每个 key: 后有空格(原文件已备份 ",
            );
            line.append(backup);
            line.append(")");
            (false, Some(HealNote { level: LogLevel::Error, line }))
        },
        Heal::Repaired(_) => {
            let error = if backup_error.is_some() {
                backup_error
            } else {
                write_error
            };
            match error {
                None => {
                    let line = cat(
                        "[dsh-desktop] settings.yaml 自动修复:为缺失空格的 key: 补空格(疑似 Web UI 序列化器缺陷,建议反馈);原文件备份 ",
                        backup,
                    );
                    (true, Some(HealNote { level: LogLevel::Warn, line }))
                },
                Some(e) => {
                    let line = cat("[dsh-desktop] settings.yaml 修复写入失败:", e.as_str());
                    (false, Some(HealNote { level: LogLevel::Error, line }))
                },
            }
        },
    }
}

// ---------------------------------------------------------------------------
// Showing the webchat
// ---------------------------------------------------------------------------

/// How often the shell looks for the address that DSH prints.
pub const ADDRESS_TRIES: u32 = 5;

/// What is done to show the webchat.
pub enum NavStep {
    /// The window goes to an address.
    Go { url: String },
    /// DSH has not printed its address yet: the shell looks again.
    Wait,
}

/// Where the window goes, or `None` where the shell looks again. A DSH that
/// the shell has started is given a few tries to print an address with its
/// token; one that it is attached to gets the bare address, whatever was
/// printed before.
pub open spec fn webchat_address(spawned: bool, tries: u32, printed: Seq<Seq<char>>) -> Option<
    Seq<char>,
> {
    if spawned && tries < ADDRESS_TRIES {
        crate::console::launch_url_from(
            crate::console::last_n(printed, CHILD_TAIL_CAP as nat),
            0,
        )
    } else {
        Some(DSH_BASE@)
    }
}

/// What is done to show the webchat after so many tries.
pub fn navigate_step(spawned: bool, tries: u32, printed: &ChildTail) -> (out: NavStep)
    ensures
        match webchat_address(spawned, tries, printed@) {
            Some(address) => out matches NavStep::Go { url } && url@ == address,
            None => out is Wait,
        },
{
    if spawned && tries < ADDRESS_TRIES {
        let tail = printed.last(CHILD_TAIL_CAP);
        match resolve_launch_url(&tail) {
            Some(url) => NavStep::Go { url },
            None => NavStep::Wait,
        }
    } else {
        NavStep::Go { url: DSH_BASE.to_string() }
    }
}

/// An attached DSH is never shown under an address with a token: what was
/// printed belongs to another run.
pub proof fn law_attached_webchat_ignores_what_was_printed(
    tries: u32,
    printed: Seq<Seq<char>>,
)
    ensures
        webchat_address(false, tries, printed) == Some(DSH_BASE@),
{
}

/// The search for an address ends: after the last try the window goes to the
/// bare address.
pub proof fn law_webchat_is_always_shown(spawned: bool, printed: Seq<Seq<char>>)
    ensures
        webchat_address(spawned, ADDRESS_TRIES, printed) is Some,
{
}

/// Whether the shell looks if DSH demands a token that it does not have: only
/// where it is attached, and until the user was asked once.
pub fn wall_to_check(state: &DshState, asked: &Once) -> (yes: bool)
    ensures
        yes == (state@ is None && !asked@),
{
    state.is_attached() && !asked.is_done()
}

/// Whether the page shows that DSH demands a token, by the marks that a script
/// leaves in its title and its address.
pub open spec fn shows_wall(title: Seq<char>, url: Seq<char>) -> bool {
    crate::text::contains(title, "__DSH_AUTH_WALL__"@) || crate::text::contains(
        url,
        "dsh-shell-auth-wall"@,
    )
}

/// Whether the page shows that DSH demands a token.
pub fn wall_shown(title: &str, url: &str) -> (yes: bool)
    ensures
        yes == shows_wall(title@, url@),
{
    str_contains(title, "__DSH_AUTH_WALL__") || str_contains(url, "dsh-shell-auth-wall")
}

/// The title of the question that follows when DSH demands a token.
pub const WALL_TITLE: &'static str = "DSH 需要浏览器认证";

/// The question: whether the shell takes over, or leaves.
pub const WALL_QUESTION: &'static str = "检测到 DSH 需要浏览器令牌(新版本认证),但当前实例不是本应用启动的,无法获取令牌。\n\n「是」重启 dsh web 宿主(由本应用接管,自动完成认证)\n「否」退出本应用(保留当前 DSH 实例)";

/// Where a check for the demand of a token stands.
#[derive(Clone, Copy)]
pub enum WallStage {
    /// Nothing has been done.
    Idle,
    /// The page is being looked at.
    Looking,
    /// The user is being asked.
    Asking,
    /// The check is over.
    Over,
}

/// What happened in the course of a check.
pub enum WallEvent {
    /// A page has been loaded.
    Loaded,
    /// The marks were looked for: the title and the address of the page.
    Looked { title: String, url: String },
    /// The user has answered.
    Answered { yes: bool },
}

/// The meaning of it.
pub enum WallEventView {
    Loaded,
    Looked { title: Seq<char>, url: Seq<char> },
    Answered { yes: bool },
}

impl WallEvent {
    /// The meaning of it.
    pub open spec fn view(&self) -> WallEventView {
        match *self {
            WallEvent::Loaded => WallEventView::Loaded,
            WallEvent::Looked { title, url } => WallEventView::Looked { title: title@, url: url@ },
            WallEvent::Answered { yes } => WallEventView::Answered { yes },
        }
    }
}

/// What is done next.
#[derive(Clone, Copy)]
pub enum WallAction {
    /// The script runs in the page, and the page is looked at.
    Look,
    /// The user is asked.
    Ask,
    /// Whatever DSH there is ends, and the shell starts its own.
    TakeOver,
    /// The shell ends. DSH stays.
    Leave,
    /// Nothing.
    Stop,
}

/// What follows in a check: its stage, what is done, and whether the one
/// question of the session has been used. The shell is attached or not, and
/// the question has been used before or not.
pub open spec fn wall_next(
    stage: WallStage,
    event: WallEventView,
    attached: bool,
    used: bool,
) -> (WallStage, WallAction, bool) {
    match (stage, event) {
        (WallStage::Idle, WallEventView::Loaded) => if attached && !used {
            (WallStage::Looking, WallAction::Look, used)
        } else {
            (WallStage::Over, WallAction::Stop, used)
        },
        (WallStage::Looking, WallEventView::Looked { title, url }) => if shows_wall(title, url)
            && !used {
            (WallStage::Asking, WallAction::Ask, true)
        } else {
            (WallStage::Over, WallAction::Stop, used)
        },
        (WallStage::Asking, WallEventView::Answered { yes: true }) => (
            WallStage::Over,
            WallAction::TakeOver,
            used,
        ),
        (WallStage::Asking, WallEventView::Answered { yes: false }) => (
            WallStage::Over,
            WallAction::Leave,
            used,
        ),
        _ => (WallStage::Over, WallAction::Stop, used),
    }
}

/// A check whether DSH demands a token that the shell does not have.
pub struct WallCheck {
    stage: WallStage,
}

impl WallCheck {
    /// Where it stands.
    pub closed spec fn view(&self) -> WallStage {
        self.stage
    }

    /// A check that has not begun.
    pub fn new() -> (out: WallCheck)
        ensures
            out@ == WallStage::Idle,
    {
        WallCheck { stage: WallStage::Idle }
    }

    /// Takes in what happened and says what is done next. The question is
    /// claimed for this check before the user sees it.
    pub fn step(&mut self, event: &WallEvent, state: &DshState, asked: &mut Once) -> (out: WallAction)
        ensures
            wall_next(old(self)@, event@, state@ is None, old(asked)@) == (
                final(self)@,
                out,
                final(asked)@,
            ),
    {
        let stage = self.stage;
        self.stage = WallStage::Over;
        match (stage, event) {
            (WallStage::Idle, WallEvent::Loaded) => {
                if !wall_to_check(state, asked) {
                    return WallAction::Stop;
                }
                self.stage = WallStage::Looking;
                WallAction::Look
            },
            (WallStage::Looking, WallEvent::Looked { title, url }) => {
                if !wall_shown(title.as_str(), url.as_str()) || !asked.claim() {
                    return WallAction::Stop;
                }
                self.stage = WallStage::Asking;
                WallAction::Ask
            },
            (WallStage::Asking, WallEvent::Answered { yes }) => if *yes {
                WallAction::TakeOver
            } else {
                WallAction::Leave
            },
            _ => WallAction::Stop,
        }
    }
}

/// How often the user is asked in a session: steps of any checks, in any
/// order, each with the stage of its check, what happened, and whether the
/// shell is attached.
pub open spec fn questions(session: Seq<(WallStage, WallEventView, bool)>, used: bool) -> nat
    decreases session.len(),
{
    if session.len() == 0 {
        0
    } else {
        let (stage, event, attached) = session[0];
        let (_, action, now) = wall_next(stage, event, attached, used);
        questions(session.skip(1), now) + if action is Ask {
            1nat
        } else {
            0nat
        }
    }
}

/// Whatever checks run in a session, and however their steps interleave, the
/// user is asked at most once, and not at all where the question was used.
pub proof fn law_the_user_is_asked_at_most_once(
    session: Seq<(WallStage, WallEventView, bool)>,
    used: bool,
)
    ensures
        questions(session, used) <= 1,
        used ==> questions(session, used) == 0,
    decreases session.len(),
{
    if session.len() > 0 {
        let (stage, event, attached) = session[0];
        law_the_user_is_asked_at_most_once(
            session.skip(1),
            wall_next(stage, event, attached, used).2,
        );
    }
}

/// The shell ends only when the user was asked and said no, and it takes over
/// only when the user was asked and said yes. It asks only where the page it
/// looked at shows the demand.
pub proof fn law_the_answer_decides(
    stage: WallStage,
    event: WallEventView,
    attached: bool,
    used: bool,
)
    ensures
        ({
            let action = wall_next(stage, event, attached, used).1;
            &&& action is Leave <==> stage is Asking && event == (WallEventView::Answered {
                yes: false,
            })
            &&& action is TakeOver <==> stage is Asking && event == (WallEventView::Answered {
                yes: true,
            })
            &&& action is Ask <==> stage is Looking && !used && (event matches WallEventView::Looked {
                title,
                url,
            } && shows_wall(title, url))
        }),
{
}

/// A DSH that the shell has started is never looked at, nor is one after the
/// question was used.
pub proof fn law_an_owned_backend_is_not_checked(event: WallEventView, attached: bool, used: bool)
    requires
        !attached || used,
    ensures
        wall_next(WallStage::Idle, event, attached, used) == (
            WallStage::Over,
            WallAction::Stop,
            used,
        ),
{
}

// ---------------------------------------------------------------------------
// What the decisions guarantee
// ---------------------------------------------------------------------------

/// A DSH that answers is taken over at once and the trial is over, whatever
/// the state of the process is and however long it took.
pub proof fn law_an_answering_candidate_is_taken_over(
    trial: TrialView,
    child: ChildState,
    elapsed: u128,
    printed: Seq<Seq<char>>,
)
    requires
        trial.stage is Polling,
    ensures
        trial_step(trial, TrialEvent::Polled { answering: true, child, elapsed }, printed)
            matches Some((next, action)) && action is Adopt && next.stage is Over && next.window
            == trial.window && next.second == trial.second,
{
}

/// A process that runs without an answer is given its whole time, unchanged,
/// and killed as soon as that is over, not before.
pub proof fn law_a_running_candidate_gets_its_time(
    trial: TrialView,
    elapsed: u128,
    printed: Seq<Seq<char>>,
)
    requires
        trial.stage is Polling,
    ensures
        ({
            let event = TrialEvent::Polled {
                answering: false,
                child: ChildState::Running,
                elapsed,
            };
            let late = elapsed >= trial.window * 1_000_000_000;
            trial_step(trial, event, printed) matches Some((next, action)) && {
                &&& late ==> action is Kill && next.stage is Killing && next.window == trial.window
                    && next.second == trial.second
                &&& !late ==> action is Sleep && next == trial
            }
        }),
{
}

/// A process that ended without an answer is looked into on its first attempt:
/// its status and its last eight lines are kept for that. On its second
/// attempt, and where its state cannot be read, it has failed.
pub proof fn law_a_dead_candidate_gets_one_more_chance(
    trial: TrialView,
    status: String,
    error: String,
    elapsed: u128,
    early: Seq<Seq<char>>,
    last: Seq<Seq<char>>,
)
    requires
        trial.stage is Polling,
        last.len() == 8 || last.len() < 8 && early.len() == 0,
    ensures
        ({
            let exited = TrialEvent::Polled {
                answering: false,
                child: ChildState::Exited { status },
                elapsed,
            };
            let unknown = TrialEvent::Polled {
                answering: false,
                child: ChildState::Unknown { error },
                elapsed,
            };
            &&& trial_step(trial, exited, early + last) matches Some((next, action)) && {
                &&& !trial.second ==> action is Heal && next.stage == (StageView::Healing {
                    status: status@,
                    tail: last,
                }) && !next.second && next.window == trial.window
                &&& trial.second ==> next.stage is Over && (action matches ActionView::Fail { reason }
                    && crate::text::contains(reason, status@) && (last.len() > 0
                    ==> crate::text::contains(reason, crate::text::join(last, "\n"@))))
            }
            &&& trial_step(trial, unknown, early + last) matches Some((next, action))
                && next.stage is Over && (action matches ActionView::Fail { reason }
                && crate::text::contains(reason, error@))
        }),
{
    crate::console::law_the_last_lines_are_the_end(early, last, 8);
    assert(last.len() < 8 ==> early + last =~= last);
    lemma_early_exit_tells(status@, last);
    let reason = "无法查询子进程("@ + error@ + ")\n"@;
    crate::text::law_containing_is_being_cut_around(reason, error@);
}

proof fn lemma_early_exit_tells(status: Seq<char>, tail: Seq<Seq<char>>)
    ensures
        crate::text::contains(early_exit(status, tail), status),
        tail.len() > 0 ==> crate::text::contains(
            early_exit(status, tail),
            crate::text::join(tail, "\n"@),
        ),
{
    let reason = early_exit(status, tail);
    let body = if tail.len() == 0 {
        ""@
    } else {
        "\n"@ + crate::text::join(tail, "\n"@)
    };
    assert(reason =~= "进程提前退出("@ + status + (")"@ + body + "\n"@));
    crate::text::law_containing_is_being_cut_around(reason, status);
    if tail.len() > 0 {
        let all = crate::text::join(tail, "\n"@);
        assert(reason =~= ("进程提前退出("@ + status + ")"@ + "\n"@) + all + "\n"@);
        crate::text::law_containing_is_being_cut_around(reason, all);
    }
}

/// What follows a death: a mended settings file or an installed package gives
/// a second attempt. A file that needs no mending leads to the package that
/// the last lines call missing, where they do; else the candidate has failed.
pub proof fn law_a_repair_gives_a_second_attempt(
    trial: TrialView,
    status: Seq<char>,
    tail: Seq<Seq<char>>,
    pkg: Seq<char>,
    printed: Seq<Seq<char>>,
)
    ensures
        ({
            let healing = TrialView { stage: StageView::Healing { status, tail }, ..trial };
            let repairing = TrialView { stage: StageView::Repairing { status, tail, pkg }, ..trial };
            let missing = crate::console::bundle_upto(tail, tail.len());
            &&& trial_step(healing, TrialEvent::Healed { mended: true }, printed)
                matches Some((next, action)) && action is Spawn && next.second
                && next.stage is Spawning && next.window == trial.window
            &&& trial_step(healing, TrialEvent::Healed { mended: false }, printed)
                matches Some((next, action)) && {
                &&& missing matches Some(name) ==> action == (ActionView::Repair { pkg: name })
                    && next.stage == (StageView::Repairing { status, tail, pkg: name })
                    && next.second == trial.second
                &&& missing is None ==> next.stage is Over && (action matches ActionView::Fail {
                    reason,
                } && crate::text::contains(reason, status))
            }
            &&& trial_step(repairing, TrialEvent::Repaired { installed: true }, printed)
                matches Some((next, action)) && action is Spawn && next.second
                && next.stage is Spawning && next.window == trial.window
            &&& trial_step(repairing, TrialEvent::Repaired { installed: false }, printed)
                matches Some((next, action)) && next.stage is Over && (action
                matches ActionView::Fail { reason } && crate::text::contains(reason, pkg)
                && crate::text::contains(reason, status))
        }),
{
    lemma_early_exit_tells(status, tail);
    let reason = bundle_missing(status, tail, pkg);
    let a = "进程提前退出("@;
    let b = ")——缺少 profile 包 "@;
    let c = "(疑似 pnpm 新发布冷却期拦截)\n手动修复:在 %USERPROFILE%\\.dsh\\profiles\\web 执行 pnpm add --save-exact "@;
    let d = " --config.minimumReleaseAge=0\n完整日志:面板→日志,或 %LOCALAPPDATA%\\dsh-desktop\\dsh.log\n"@;
    let lines = crate::text::join(tail, "\n"@);
    assert(reason =~= a + status + (b + pkg + c + pkg + d + lines));
    assert(reason =~= (a + status + b) + pkg + (c + pkg + d + lines));
    crate::text::law_containing_is_being_cut_around(reason, status);
    crate::text::law_containing_is_being_cut_around(reason, pkg);
}

/// A process that was started is polled. One that could not be started, or
/// that was killed, has failed, and the reason names the error.
pub proof fn law_a_trial_begins_and_ends(trial: TrialView, error: String, printed: Seq<Seq<char>>)
    ensures
        trial_start(trial.window).stage is Spawning,
        !trial_start(trial.window).second,
        trial.stage is Spawning ==> (trial_step(trial, TrialEvent::Spawned, printed)
            matches Some((next, action)) && action is Poll && next.stage is Polling && next.second
            == trial.second && next.window == trial.window),
        trial.stage is Spawning ==> (trial_step(trial, TrialEvent::NotSpawned { error }, printed)
            matches Some((next, action)) && next.stage is Over && (action
            matches ActionView::Fail { reason } && crate::text::contains(reason, error@))),
        trial.stage is Killing ==> (trial_step(trial, TrialEvent::Killed, printed)
            matches Some((next, action)) && next.stage is Over && action is Fail),
{
    let reason = "无法启动("@ + error@ + ")\n"@;
    crate::text::law_containing_is_being_cut_around(reason, error@);
}

/// A healthy candidate is taken over in the end: it is started, it runs
/// without an answer for any number of polls within its time, and then it
/// answers.
pub proof fn law_a_slow_candidate_is_taken_over_in_the_end(
    trial: TrialView,
    waits: Seq<u128>,
    child: ChildState,
    elapsed: u128,
    printed: Seq<Seq<char>>,
)
    requires
        trial.stage is Polling,
        forall|i: int|
            0 <= i < waits.len() ==> #[trigger] waits[i] < trial.window * 1_000_000_000,
    ensures
        last_action(
            trial,
            Seq::new(
                waits.len(),
                |i: int|
                    TrialEvent::Polled {
                        answering: false,
                        child: ChildState::Running,
                        elapsed: waits[i],
                    },
            ).push(TrialEvent::Polled { answering: true, child, elapsed }),
            printed,
        ) == Some(ActionView::Adopt),
    decreases waits.len(),
{
    let events = Seq::new(
        waits.len(),
        |i: int|
            TrialEvent::Polled { answering: false, child: ChildState::Running, elapsed: waits[i] },
    ).push(TrialEvent::Polled { answering: true, child, elapsed });
    if waits.len() == 0 {
        law_an_answering_candidate_is_taken_over(trial, child, elapsed, printed);
        assert(events.len() == 1);
    } else {
        law_a_running_candidate_gets_its_time(trial, waits[0], printed);
        let rest = waits.skip(1);
        assert forall|i: int| 0 <= i < rest.len() implies #[trigger] rest[i] < trial.window
            * 1_000_000_000 by {
            assert(rest[i] == waits[i + 1]);
        }
        law_a_slow_candidate_is_taken_over_in_the_end(trial, rest, child, elapsed, printed);
        let later = Seq::new(
            rest.len(),
            |i: int|
                TrialEvent::Polled {
                    answering: false,
                    child: ChildState::Running,
                    elapsed: rest[i],
                },
        ).push(TrialEvent::Polled { answering: true, child, elapsed });
        assert(events.skip(1) =~= later);
    }
}

/// What is done last, after some events in a row.
pub open spec fn last_action(
    trial: TrialView,
    events: Seq<TrialEvent>,
    printed: Seq<Seq<char>>,
) -> Option<ActionView>
    decreases events.len(),
{
    if events.len() == 0 {
        None
    } else {
        match trial_step(trial, events[0], printed) {
            Some((next, action)) => if events.len() == 1 {
                Some(action)
            } else {
                last_action(next, events.skip(1), printed)
            },
            None => None,
        }
    }
}

/// When the owned process is gone: nothing follows where it was stopped on
/// purpose; it is started again where it had lived for thirty seconds, or
/// where fewer than two before it died young; after the third young death in a
/// row the shell gives up.
pub proof fn law_a_lost_process_is_started_again(session: Seq<Happening>, lived: u128)
    ensures
        ({
            let v = after_session(session);
            let streak = young_streak(unexpected_lives(session));
            &&& exit_verdict(v, lived) is Quiet <==> v.stopping
            &&& exit_verdict(v, lived) is Restart <==> !v.stopping && (lived >= 30_000_000_000
                || streak < 2)
            &&& exit_verdict(v, lived) is GiveUp <==> !v.stopping && lived < 30_000_000_000
                && streak >= 2
        }),
{
    let lost = session.push(Happening::Exited { lived });
    assert(lost.drop_last() =~= session);
    law_three_young_deaths_end_the_restarts(lost);
    if !after_session(session).stopping {
        let lives = unexpected_lives(lost);
        assert(lives.drop_last() =~= unexpected_lives(session));
    }
}

/// A process is being stopped on purpose exactly from a teardown to the next
/// process that is taken over. Stopping on purpose is no death, and neither
/// teardown nor takeover changes the count of deaths.
pub proof fn law_only_a_takeover_ends_a_stop(session: Seq<Happening>, h: Happening)
    ensures
        ({
            let before = after_session(session);
            let after = after_session(session.push(h));
            &&& h is TornDown ==> after.stopping && after.owned is None && after.quick_deaths
                == before.quick_deaths
            &&& h matches Happening::Adopted(pid) ==> !after.stopping && after.owned == Some(pid)
                && after.quick_deaths == before.quick_deaths
            &&& h is Exited ==> after.stopping == before.stopping && after.owned == before.owned
            &&& h is Exited && before.stopping ==> after == before
            &&& !after_session(Seq::empty()).stopping
        }),
{
    assert(session.push(h).drop_last() =~= session);
}

/// Startup tries the first candidate that has not failed yet, until all have;
/// then it reports each of them with its own reason. With no candidate at all
/// the user chooses.
pub proof fn law_startup_tries_all_and_reports_all(
    labels: Seq<Seq<char>>,
    reasons: Seq<Seq<char>>,
    i: int,
)
    requires
        reasons.len() <= labels.len(),
    ensures
        ({
            let step = start_next(labels, failures_after(labels, reasons));
            &&& step is NotFound <==> labels.len() == 0
            &&& step is Try <==> reasons.len() < labels.len()
            &&& step matches StartView::Try { index } ==> index == reasons.len()
            &&& step matches StartView::Failed { message } ==> 0 <= i < reasons.len()
                ==> crate::text::contains(message, "「"@ + labels[i] + "」"@ + reasons[i])
        }),
{
    law_candidates_are_tried_once_and_in_order(labels, reasons);
    let lines = failures_after(labels, reasons);
    if 0 <= i < reasons.len() {
        assert(lines[i] == failure_line(labels[i], reasons[i]));
        lemma_join_holds(lines, "\n"@, i);
        crate::text::law_containing_carries_over(
            "所有启动方式均失败:\n"@,
            crate::text::join(lines, "\n"@),
            Seq::empty(),
            lines[i],
        );
    }
}

proof fn lemma_join_holds(parts: Seq<Seq<char>>, sep: Seq<char>, i: int)
    requires
        0 <= i < parts.len(),
    ensures
        crate::text::contains(crate::text::join(parts, sep), parts[i]),
    decreases parts.len(),
{
    let part = parts[i];
    let none = Seq::<char>::empty();
    assert(crate::text::contains(part, part)) by {
        assert(part =~= none + part + none);
        crate::text::law_containing_is_being_cut_around(part, part);
    }
    if parts.len() == 1 {
    } else if i == parts.len() - 1 {
        crate::text::law_containing_carries_over(
            crate::text::join(parts.drop_last(), sep) + sep,
            part,
            none,
            part,
        );
    } else {
        let front = parts.drop_last();
        lemma_join_holds(front, sep, i);
        let u = crate::text::join(front, sep);
        crate::text::law_containing_carries_over(none, u, sep, part);
        crate::text::law_containing_carries_over(none, u + sep, parts.last(), part);
    }
}

/// A page that was loaded anew is told that DSH is up as soon as it answers in
/// one of five tries. Until then the shell asks again, and after the fifth try
/// it stops.
pub proof fn law_a_reloaded_page_is_told_within_five_tries(tries: u32)
    ensures
        reload_next(tries, true) is Tell <==> tries < 5,
        reload_next(tries, false) is Wait <==> tries < 4,
        !(reload_next(tries, false) is Tell),
        reload_next(tries, true) is Wait ==> false,
{
}

/// A DSH that the shell has started is shown under the first address with a
/// token that it has printed, for five tries; where it printed none yet, the
/// shell looks again.
pub proof fn law_a_started_webchat_is_shown_with_its_token(
    tries: u32,
    earlier: Seq<Seq<char>>,
    before: Seq<char>,
    token: Seq<char>,
    after: Seq<char>,
    later: Seq<Seq<char>>,
)
    requires
        tries < 5,
        earlier.len() + later.len() < 60,
        forall|i: int|
            0 <= i < earlier.len() ==> crate::text::is_free_of(
                #[trigger] earlier[i],
                "http://127.0.0.1:3080/?token="@,
            ),
        crate::text::is_free_of(before, "http://127.0.0.1:3080/?token="@),
        token.len() > 0,
        forall|k: int| 0 <= k < token.len() ==> crate::console::is_one_of_64(#[trigger] token[k]),
        after.len() > 0 ==> !crate::console::is_one_of_64(after[0]),
    ensures
        ({
            let anchor = "http://127.0.0.1:3080/?token="@;
            let line = before + anchor + token + after;
            webchat_address(true, tries, earlier + seq![line] + later) == Some(anchor + token)
        }),
        webchat_address(true, tries, earlier) is None,
        webchat_address(false, tries, earlier) == Some("http://127.0.0.1:3080"@),
{
    crate::console::law_the_printed_address_is_found(earlier, before, token, after, later);
    let anchor = "http://127.0.0.1:3080/?token="@;
    let all = earlier + seq![before + anchor + token + after] + later;
    crate::console::law_the_last_lines_are_the_end(earlier, all, 60);
    crate::console::law_the_last_lines_are_the_end(earlier, earlier, 60);
}

/// The marks show the demand wherever they stand in the title or the address
/// of the page, and nothing else does. A page is looked at where the shell is
/// attached and the question was not used.
pub proof fn law_the_marks_show_the_wall(
    title: Seq<char>,
    url: Seq<char>,
    before: Seq<char>,
    behind: Seq<char>,
)
    ensures
        shows_wall(before + "__DSH_AUTH_WALL__"@ + behind, url),
        shows_wall(title, before + "dsh-shell-auth-wall"@ + behind),
        crate::text::is_free_of(title, "__DSH_AUTH_WALL__"@) && crate::text::is_free_of(
            url,
            "dsh-shell-auth-wall"@,
        ) ==> !shows_wall(title, url),
        wall_next(WallStage::Idle, WallEventView::Loaded, true, false) == (
            WallStage::Looking,
            WallAction::Look,
            false,
        ),
{
    let mark = "__DSH_AUTH_WALL__"@;
    let hash = "dsh-shell-auth-wall"@;
    crate::text::law_containing_is_being_cut_around(before + mark + behind, mark);
    crate::text::law_containing_is_being_cut_around(before + hash + behind, hash);
    crate::text::lemma_index_from(title, mark, 0);
    crate::text::lemma_index_from(url, hash, 0);
    if crate::text::contains(title, mark) {
        let k = crate::text::index_of(title, mark)->0;
        assert(title.subrange(k, k + mark.len()) == mark);
    }
    if crate::text::contains(url, hash) {
        let k = crate::text::index_of(url, hash)->0;
        assert(url.subrange(k, k + hash.len()) == hash);
    }
}

/// An old DSH is waited for as long as it answers, and for ten seconds at
/// most.
pub proof fn law_an_old_backend_is_waited_for(elapsed: u128)
    ensures
        waits_on(true, elapsed) <==> elapsed < 10_000_000_000,
        !waits_on(false, elapsed),
{
}

/// The page is told whether DSH was there before, and how it was started where
/// that is known.
pub proof fn law_the_page_is_told_how_dsh_came_up(attached: bool, method: Seq<char>)
    ensures
        crate::json::get_text(ready_view(attached, Some(method)), "status"@) == Some("ready"@),
        crate::json::get_truth(ready_view(attached, Some(method)), "attached"@) == Some(attached),
        crate::json::get_text(ready_view(attached, Some(method)), "method"@) == Some(method),
        crate::json::get_text(ready_view(attached, None), "status"@) == Some("ready"@),
        crate::json::get_truth(ready_view(attached, None), "attached"@) == Some(attached),
        ready_view(attached, None).get("method"@) is None,
{
    reveal_strlit("status");
    reveal_strlit("attached");
    reveal_strlit("method");
    assert("status"@.len() == 6 && "attached"@.len() == 8 && "method"@.len() == 6);
    assert("status"@[0] == 's' && "method"@[0] == 'm');
}

/// The last words of a process are not lost: where it was too slow, or where
/// the restarts end, the message holds the last lines that it printed.
pub proof fn law_last_words_are_passed_on(
    window: u64,
    second: bool,
    early: Seq<Seq<char>>,
    last: Seq<Seq<char>>,
    excerpt: Seq<char>,
)
    requires
        last.len() == 4 || last.len() < 4 && early.len() == 0,
    ensures
        trial_step(
            TrialView { window, second, stage: StageView::Killing },
            TrialEvent::Killed,
            early + last,
        ) matches Some((next, ActionView::Fail { reason })) && crate::text::contains(
            reason,
            crate::text::join(last, " ⏎ "@),
        ),
        crate::text::contains(give_up_message(excerpt), excerpt),
{
    crate::console::law_the_last_lines_are_the_end(early, last, 4);
    assert(last.len() < 4 ==> early + last =~= last);
    let words = crate::text::join(last, " ⏎ "@);
    let reason = too_slow(words);
    let none = Seq::<char>::empty();
    if words.len() > 0 {
        assert(reason =~= ("就绪超时"@ + ",最后输出: "@) + words + "\n"@);
    } else {
        assert(reason =~= none + words + reason);
    }
    crate::text::law_containing_is_being_cut_around(reason, words);
    let head = "DSH 反复意外退出,已停止自动重启"@;
    let tail = "\n完整日志:面板→日志,或 %LOCALAPPDATA%\\dsh-desktop\\dsh.log;可用托盘「重启 dsh web(后端)」重试"@;
    let message = give_up_message(excerpt);
    if excerpt.len() > 0 {
        assert(message =~= (head + "\n最近输出: "@) + excerpt + tail);
    } else {
        assert(message =~= none + excerpt + message);
    }
    crate::text::law_containing_is_being_cut_around(message, excerpt);
}

/// A trial goes on exactly where what was found out belongs to what was done
/// last.
pub proof fn law_only_what_belongs_moves_a_trial(
    trial: TrialView,
    event: TrialEvent,
    printed: Seq<Seq<char>>,
)
    ensures
        trial_step(trial, event, printed) is Some <==> {
            ||| trial.stage is Spawning && (event is Spawned || event is NotSpawned)
            ||| trial.stage is Polling && event is Polled
            ||| trial.stage is Healing && event is Healed
            ||| trial.stage is Repairing && event is Repaired
            ||| trial.stage is Killing && event is Killed
        },
{
}

} // verus!
