//! The shell's own event log: its lines, the banner of a session, the
//! archives of earlier sessions and the diagnostic bundle.

use vstd::prelude::*;

use crate::json::{Json, JsonView};
use crate::text::{cat, chars_of, padded_string, split_lines, str_starts_with, string_from};

verus! {

// ---------------------------------------------------------------------------
// Lines
// ---------------------------------------------------------------------------

/// How grave an event is.
#[derive(Clone, Copy, PartialEq, Eq, Structural, Debug)]
pub enum LogLevel {
    Info,
    Warn,
    Error,
}

impl LogLevel {
    /// The level's tag in a log line.
    pub open spec fn tag_text(self) -> Seq<char> {
        match self {
            LogLevel::Info => "INFO"@,
            LogLevel::Warn => "WARN"@,
            LogLevel::Error => "ERROR"@,
        }
    }

    /// The level's tag in a log line.
    pub fn tag(self) -> (out: &'static str)
        ensures
            out@ == self.tag_text(),
    {
        match self {
            LogLevel::Info => "INFO",
            LogLevel::Warn => "WARN",
            LogLevel::Error => "ERROR",
        }
    }
}

/// A moment of local time.
#[derive(Clone, Copy)]
pub struct Moment {
    pub year: u16,
    pub month: u16,
    pub day: u16,
    pub hour: u16,
    pub minute: u16,
    pub second: u16,
    pub millis: u16,
}

impl Moment {
    /// The date, as in `2026-08-18`.
    pub open spec fn date_text(self) -> Seq<char> {
        crate::text::padded(self.year as nat, 4) + "-"@ + crate::text::padded(self.month as nat, 2)
            + "-"@ + crate::text::padded(self.day as nat, 2)
    }

    /// The time of day, with a given sign between its numbers.
    pub open spec fn clock_text(self, sep: Seq<char>) -> Seq<char> {
        crate::text::padded(self.hour as nat, 2) + sep + crate::text::padded(self.minute as nat, 2)
            + sep + crate::text::padded(self.second as nat, 2)
    }

    /// The moment as part of a file name, as in `2026-08-18T12-40-03-123`.
    pub open spec fn stamp_text(self) -> Seq<char> {
        self.date_text() + "T"@ + self.clock_text("-"@) + "-"@ + crate::text::padded(
            self.millis as nat,
            3,
        )
    }

    /// The date, as in `2026-08-18`.
    pub fn date(&self) -> (out: String)
        ensures
            out@ == self.date_text(),
    {
        let mut out = padded_string(self.year as u64, 4);
        out.append("-");
        out.append(padded_string(self.month as u64, 2).as_str());
        out.append("-");
        out.append(padded_string(self.day as u64, 2).as_str());
        out
    }

    fn clock(&self, sep: &str) -> (out: String)
        ensures
            out@ == self.clock_text(sep@),
    {
        let mut out = padded_string(self.hour as u64, 2);
        out.append(sep);
        out.append(padded_string(self.minute as u64, 2).as_str());
        out.append(sep);
        out.append(padded_string(self.second as u64, 2).as_str());
        out
    }

    /// The time of day, as in `12:40:03`.
    pub fn time(&self) -> (out: String)
        ensures
            out@ == self.clock_text(":"@),
    {
        self.clock(":")
    }

    /// The moment as part of a file name, as in `2026-08-18T12-40-03-123`.
    pub fn stamp(&self) -> (out: String)
        ensures
            out@ == self.stamp_text(),
    {
        let mut out = self.date();
        out.append("T");
        out.append(self.clock("-").as_str());
        out.append("-");
        out.append(padded_string(self.millis as u64, 3).as_str());
        out
    }
}

/// A line of the log: `[date time] [LEVEL] message`.
pub open spec fn event_line(now: Moment, level: LogLevel, message: Seq<char>) -> Seq<char> {
    "["@ + now.date_text() + " "@ + now.clock_text(":"@) + "] ["@ + level.tag_text() + "] "@
        + message
}

/// A line of the log.
pub fn log_line(now: &Moment, level: LogLevel, message: &str) -> (out: String)
    ensures
        out@ == event_line(*now, level, message@),
{
    let mut out = cat("[", now.date().as_str());
    out.append(" ");
    out.append(now.time().as_str());
    out.append("] [");
    out.append(level.tag());
    out.append("] ");
    out.append(message);
    out
}

/// The banner that opens the log of a session.
pub fn session_banner(now: &Moment, version: &str, exe: &str, dir: &str) -> (out: Vec<String>)
    ensures
        crate::text::strings(out@) == seq![
            "** dsh-desktop session: "@ + now.date_text() + " "@ + now.clock_text(":"@),
            "** app: v"@ + version@ + " ("@ + exe@ + ")"@,
            "** log dir: "@ + dir@,
        ],
{
    let mut first = cat("** dsh-desktop session: ", now.date().as_str());
    first.append(" ");
    first.append(now.time().as_str());
    let mut second = cat("** app: v", version);
    second.append(" (");
    second.append(exe);
    second.append(")");
    let third = cat("** log dir: ", dir);
    let mut out: Vec<String> = Vec::new();
    out.push(first);
    out.push(second);
    out.push(third);
    assert(crate::text::strings(out@) =~= seq![first@, second@, third@]);
    out
}

/// The header of a launch attempt.
pub fn attempt_header(label: &str) -> (out: String)
    ensures
        out@ == "===== 启动尝试: "@ + label@ + " ====="@,
{
    let mut out = cat("===== 启动尝试: ", label);
    out.append(" =====");
    out
}

// ---------------------------------------------------------------------------
// The end of the log
// ---------------------------------------------------------------------------

/// The last `n` lines of a log.
pub fn log_tail(log: &str, n: usize) -> (out: Vec<String>)
    ensures
        crate::text::strings(out@) == crate::console::last_n(
            crate::text::lines(log@),
            n as nat,
        ),
{
    let chars = chars_of(log);
    let lines = split_lines(chars.as_slice());
    let len: usize = lines.len();
    let start: usize = if len > n {
        len - n
    } else {
        0
    };
    let mut out: Vec<String> = Vec::new();
    let mut i: usize = start;
    while i < len
        invariant
            start <= i <= len,
            len == lines@.len(),
            out@.len() == i - start,
            forall|k: int| 0 <= k < out@.len() ==> (#[trigger] out@[k])@ == lines@[start + k]@,
        decreases len - i,
    {
        let line = string_from(lines[i].as_slice(), 0, lines[i].len());
        assert(line@ =~= lines@[i as int]@);
        out.push(line);
        i = i + 1;
    }
    assert(crate::text::strings(out@) =~= crate::console::last_n(
        crate::text::lines(log@),
        n as nat,
    )) by {
        assert(crate::text::texts(lines@) == crate::text::lines(log@));
    }
    out
}

/// How many lines the log pane gets: as many as it asks for, within bounds.
pub open spec fn pane_count(asked: int) -> int {
    if asked < 50 {
        50
    } else if asked > 1000 {
        1000
    } else {
        asked
    }
}

/// How many lines the log pane gets: as many as it asks for, within bounds.
pub fn pane_lines(asked: usize) -> (n: usize)
    ensures
        n == pane_count(asked as int),
{
    if asked < 50 {
        50
    } else if asked > 1000 {
        1000
    } else {
        asked
    }
}

// ---------------------------------------------------------------------------
// Archives
// ---------------------------------------------------------------------------

/// The name under which the log of a session is archived.
pub open spec fn archive_text(now: Moment) -> Seq<char> {
    "dsh.log_"@ + now.stamp_text() + ".log"@
}

/// The name under which the log of a session is archived.
pub fn archive_name(now: &Moment) -> (out: String)
    ensures
        out@ == archive_text(*now),
{
    let mut out = cat("dsh.log_", now.stamp().as_str());
    out.append(".log");
    out
}

/// Whether a file beside the log is an archive of it.
pub fn is_archive(name: &str) -> (yes: bool)
    ensures
        yes == crate::text::starts_with(name@, "dsh.log_"@),
{
    str_starts_with(name, "dsh.log_")
}

/// The longest that an archive is kept: seven days, in nanoseconds.
pub const ARCHIVE_AGE: u128 = 604_800_000_000_000;

/// The most archives that are kept.
pub const ARCHIVE_CAP: usize = 20;

/// An archive beside the log: its name, and its age in nanoseconds where it
/// is known.
pub struct Archive {
    pub name: String,
    pub age: Option<u128>,
}

/// Whether an archive is young enough to keep. One of unknown age is.
pub open spec fn fresh(a: Archive) -> bool {
    match a.age {
        Some(age) => age <= ARCHIVE_AGE,
        None => true,
    }
}

/// Whether a text comes before another, by the numbers of their characters.
pub open spec fn text_before(a: Seq<char>, b: Seq<char>) -> bool {
    exists|n: int| #[trigger] splits_at(a, b, n)
}

/// Two texts agree up to `n`, and there the first ends or has the lesser
/// character.
pub open spec fn splits_at(a: Seq<char>, b: Seq<char>, n: int) -> bool {
    &&& 0 <= n <= a.len()
    &&& n < b.len()
    &&& a.take(n) == b.take(n)
    &&& n == a.len() || a[n] < b[n]
}

/// Whether archive `j` comes after archive `i`: by name, and by position
/// where the names are equal. Names carry the time, so it is the newer one.
pub open spec fn after(list: Seq<Archive>, i: int, j: int) -> bool {
    text_before(list[i].name@, list[j].name@) || (list[i].name@ == list[j].name@ && i < j)
}

/// How many of the first `n` archives are fresh and come after archive `i`.
pub open spec fn newer_count(list: Seq<Archive>, i: int, n: nat) -> nat
    decreases n,
{
    if n == 0 {
        0
    } else {
        newer_count(list, i, (n - 1) as nat) + if fresh(list[n - 1]) && after(list, i, n - 1) {
            1nat
        } else {
            0nat
        }
    }
}

/// Whether an archive stays: it is fresh, and fewer than twenty fresh ones
/// are newer.
pub open spec fn stays(list: Seq<Archive>, i: int) -> bool {
    fresh(list[i]) && newer_count(list, i, list.len()) < ARCHIVE_CAP
}

fn name_before(a: &Vec<char>, b: &Vec<char>) -> (yes: bool)
    ensures
        yes == text_before(a@, b@),
{
    let mut n: usize = 0;
    while n < a.len() && n < b.len() && a[n] == b[n]
        invariant
            n <= a@.len(),
            n <= b@.len(),
            a@.take(n as int) == b@.take(n as int),
        decreases a@.len() - n,
    {
        assert(a@.take(n + 1) =~= a@.take(n as int).push(a@[n as int]));
        assert(b@.take(n + 1) =~= b@.take(n as int).push(b@[n as int]));
        n = n + 1;
    }
    let yes = n < b.len() && (n == a.len() || a[n] < b[n]);
    proof {
        if yes {
            assert(splits_at(a@, b@, n as int));
        } else {
            assert forall|m: int| !#[trigger] splits_at(a@, b@, m) by {
                if splits_at(a@, b@, m) {
                    if m > n {
                        assert(a@.take(m)[n as int] == b@.take(m)[n as int]);
                        assert(a@[n as int] == b@[n as int]);
                    } else if m < n {
                        assert(a@.take(n as int)[m] == b@.take(n as int)[m]);
                    }
                }
            }
        }
    }
    yes
}

fn is_fresh(a: &Archive) -> (yes: bool)
    ensures
        yes == fresh(*a),
{
    match a.age {
        Some(age) => age <= ARCHIVE_AGE,
        None => true,
    }
}

fn count_newer(list: &Vec<Archive>, i: usize) -> (n: usize)
    requires
        i < list@.len(),
    ensures
        n == newer_count(list@, i as int, list@.len()),
{
    let own = chars_of(list[i].name.as_str());
    let mut n: usize = 0;
    let mut j: usize = 0;
    while j < list.len()
        invariant
            i < list@.len(),
            own@ == list@[i as int].name@,
            j <= list@.len(),
            n <= j,
            n == newer_count(list@, i as int, j as nat),
        decreases list@.len() - j,
    {
        if is_fresh(&list[j]) {
            let other = chars_of(list[j].name.as_str());
            let later = if i < j {
                !name_before(&other, &own)
            } else {
                name_before(&own, &other)
            };
            proof {
                lemma_text_order(own@, other@);
            }
            if later {
                n = n + 1;
            }
        }
        j = j + 1;
    }
    n
}

/// The archives to remove: those that are too old, and of the others all but
/// the twenty newest. Gives their positions in the list.
pub fn archives_to_remove(list: &Vec<Archive>) -> (out: Vec<usize>)
    ensures
        forall|i: int| 0 <= i < list@.len() ==> (stays(list@, i) <==> !#[trigger] out@.contains(
            i as usize,
        )),
        forall|k: int| 0 <= k < out@.len() ==> #[trigger] out@[k] < list@.len(),
        forall|k: int, l: int| 0 <= k < l < out@.len() ==> out@[k] < out@[l],
{
    let mut out: Vec<usize> = Vec::new();
    let mut i: usize = 0;
    while i < list.len()
        invariant
            i <= list@.len(),
            forall|k: int| 0 <= k < i ==> (stays(list@, k) <==> !#[trigger] out@.contains(
                k as usize,
            )),
            forall|k: int| 0 <= k < out@.len() ==> #[trigger] out@[k] < i,
            forall|k: int, l: int| 0 <= k < l < out@.len() ==> out@[k] < out@[l],
        decreases list@.len() - i,
    {
        let ghost before = out@;
        let keep = is_fresh(&list[i]) && count_newer(list, i) < ARCHIVE_CAP;
        if !keep {
            out.push(i);
            assert(out@.last() == i);
            assert forall|k: int| 0 <= k < i implies (stays(list@, k) <==> !#[trigger] out@.contains(
                k as usize,
            )) by {
                if before.contains(k as usize) {
                    let w = choose|w: int| 0 <= w < before.len() && before[w] == k as usize;
                    assert(out@[w] == k as usize);
                }
                if out@.contains(k as usize) {
                    let w = choose|w: int| 0 <= w < out@.len() && out@[w] == k as usize;
                    assert(before[w] == k as usize);
                }
            }
        }
        i = i + 1;
    }
    out
}

proof fn lemma_text_order(a: Seq<char>, b: Seq<char>)
    ensures
        a == b || text_before(a, b) || text_before(b, a),
        !(text_before(a, b) && text_before(b, a)),
        a == b ==> !text_before(a, b),
{
    assert(a.take(0) =~= b.take(0));
    lemma_split(a, b, 0);
    if text_before(a, b) {
        let n = choose|n: int| #[trigger] splits_at(a, b, n);
        if text_before(b, a) {
            let m = choose|m: int| #[trigger] splits_at(b, a, m);
            if n < m {
                assert(a.take(m)[n] == b.take(m)[n]);
            } else if m < n {
                assert(a.take(n)[m] == b.take(n)[m]);
            }
        }
    }
}

proof fn lemma_split(a: Seq<char>, b: Seq<char>, n: int)
    requires
        0 <= n <= a.len(),
        n <= b.len(),
        a.take(n) == b.take(n),
    ensures
        a == b || text_before(a, b) || text_before(b, a),
    decreases a.len() - n,
{
    if n < a.len() && n < b.len() {
        if a[n] == b[n] {
            assert(a.take(n + 1) =~= a.take(n).push(a[n]));
            assert(b.take(n + 1) =~= b.take(n).push(b[n]));
            lemma_split(a, b, n + 1);
        } else if a[n] < b[n] {
            assert(splits_at(a, b, n));
        } else {
            assert(splits_at(b, a, n));
        }
    } else if n < b.len() {
        assert(splits_at(a, b, n));
    } else if n < a.len() {
        assert(splits_at(b, a, n));
    } else {
        assert(a.take(n) =~= a);
        assert(b.take(n) =~= b);
    }
}

proof fn lemma_text_before_chains(a: Seq<char>, b: Seq<char>, c: Seq<char>)
    requires
        text_before(a, b),
        text_before(b, c),
    ensures
        text_before(a, c),
{
    let n = choose|n: int| #[trigger] splits_at(a, b, n);
    let m = choose|m: int| #[trigger] splits_at(b, c, m);
    if n < m {
        assert(b.take(m)[n] == c.take(m)[n]);
        assert(b.take(m).take(n) =~= b.take(n));
        assert(c.take(m).take(n) =~= c.take(n));
        assert(splits_at(a, c, n));
    } else if m < n {
        assert(a.take(n)[m] == b.take(n)[m]);
        assert(a.take(n).take(m) =~= a.take(m));
        assert(b.take(n).take(m) =~= b.take(m));
        assert(splits_at(a, c, m));
    } else {
        assert(splits_at(a, c, n));
    }
}

proof fn lemma_after_is_an_order(list: Seq<Archive>, i: int, j: int, k: int)
    ensures
        i != j ==> after(list, i, j) || after(list, j, i),
        !(after(list, i, j) && after(list, j, i)),
        after(list, i, j) && after(list, j, k) ==> after(list, i, k),
{
    lemma_text_order(list[i].name@, list[j].name@);
    if text_before(list[i].name@, list[j].name@) && text_before(list[j].name@, list[k].name@) {
        lemma_text_before_chains(list[i].name@, list[j].name@, list[k].name@);
    }
}

proof fn lemma_newer_has_fewer_newer(list: Seq<Archive>, i: int, j: int, n: nat)
    requires
        after(list, i, j),
        n <= list.len(),
        0 <= j < list.len(),
        fresh(list[j]),
    ensures
        newer_count(list, j, n) + (if j < n {
            1nat
        } else {
            0nat
        }) <= newer_count(list, i, n),
    decreases n,
{
    if n > 0 {
        lemma_newer_has_fewer_newer(list, i, j, (n - 1) as nat);
        lemma_after_is_an_order(list, i, j, n - 1);
        lemma_after_is_an_order(list, j, j, j);
    }
}

/// The positions of the archives that stay.
pub open spec fn staying(list: Seq<Archive>) -> Set<int> {
    Set::new(|i: int| 0 <= i < list.len() && stays(list, i))
}

/// What is left after a clean-up: at most twenty archives, none of them known
/// to be too old.
pub proof fn law_clean_up_leaves_at_most_twenty(list: Seq<Archive>)
    ensures
        staying(list).finite(),
        staying(list).len() <= ARCHIVE_CAP,
        forall|i: int| #[trigger] staying(list).contains(i) ==> fresh(list[i]),
{
    let kept = staying(list);
    let all = vstd::set_lib::set_int_range(0, list.len() as int);
    vstd::set_lib::lemma_int_range(0, list.len() as int);
    assert(kept.subset_of(all));
    vstd::set_lib::lemma_len_subset(kept, all);
    let rank = |i: int| newer_count(list, i, list.len()) as int;
    let ranks = vstd::set_lib::set_int_range(0, ARCHIVE_CAP as int);
    vstd::set_lib::lemma_int_range(0, ARCHIVE_CAP as int);
    assert forall|a: int, b: int|
        kept.contains(a) && kept.contains(b) && #[trigger] rank(a) == #[trigger] rank(b) implies a
        == b by {
        if a != b {
            lemma_after_is_an_order(list, a, b, b);
            if after(list, a, b) {
                lemma_newer_has_fewer_newer(list, a, b, list.len());
            } else {
                lemma_newer_has_fewer_newer(list, b, a, list.len());
            }
        }
    }
    assert(kept.map(rank).subset_of(ranks));
    vstd::set_lib::lemma_map_size(kept, kept.map(rank), rank);
    vstd::set_lib::lemma_len_subset(kept.map(rank), ranks);
}

/// A clean-up never removes a fresh archive and leaves an older one: what
/// stays is the newest of what is fresh.
pub proof fn law_clean_up_keeps_the_newest(list: Seq<Archive>, i: int, j: int)
    requires
        0 <= i < list.len(),
        0 <= j < list.len(),
        fresh(list[j]),
        after(list, i, j),
        stays(list, i),
    ensures
        stays(list, j),
{
    lemma_newer_has_fewer_newer(list, i, j, list.len());
}

// ---------------------------------------------------------------------------
// The diagnostic bundle
// ---------------------------------------------------------------------------

/// The diagnostic bundle: what the environment looks like and the log of the
/// session, as Markdown.
pub open spec fn bundle_text(
    now: Moment,
    version: Seq<char>,
    exe: Seq<char>,
    log_dir: Seq<char>,
    info: Seq<char>,
    log: Seq<char>,
) -> Seq<char> {
    "# DSH Desktop 诊断包\n\n"@ + "- 生成时间: "@ + now.date_text() + " "@ + now.clock_text(":"@)
        + "\n"@ + "- 应用: v"@ + version + " ("@ + exe + ")\n"@ + "- 日志目录: "@ + log_dir
        + "\n\n"@ + "## 环境配置 (env_info)\n\n"@ + "```json\n"@ + info + "\n```\n\n"@
        + "## 本次会话日志 (dsh.log,仅壳事件)\n\n"@ + "~~~text\n"@ + log + "\n~~~\n"@
}

/// The log of the session as the bundle shows it.
pub open spec fn shown_log(log: Option<Seq<char>>) -> Seq<char> {
    match log {
        Some(text) => text,
        None => "(读取失败)"@,
    }
}

/// The diagnostic bundle, from a report of the environment and the text of
/// the log where it could be read.
pub fn diagnostic_bundle(
    now: &Moment,
    version: &str,
    exe: &str,
    log_dir: &str,
    info: &Json,
    log: &Option<String>,
) -> (out: String)
    requires
        info@.nested(crate::json::WRITE_DEPTH as nat),
    ensures
        out@ == bundle_text(
            *now,
            version@,
            exe@,
            log_dir@,
            crate::json::json_pretty(info@),
            shown_log(crate::text::opt_text(*log)),
        ),
{
    let mut out = "# DSH Desktop 诊断包\n\n".to_string();
    out.append("- 生成时间: ");
    out.append(now.date().as_str());
    out.append(" ");
    out.append(now.time().as_str());
    out.append("\n");
    out.append("- 应用: v");
    out.append(version);
    out.append(" (");
    out.append(exe);
    out.append(")\n");
    out.append("- 日志目录: ");
    out.append(log_dir);
    out.append("\n\n");
    out.append("## 环境配置 (env_info)\n\n");
    out.append("```json\n");
    out.append(info.to_pretty().as_str());
    out.append("\n```\n\n");
    out.append("## 本次会话日志 (dsh.log,仅壳事件)\n\n");
    out.append("~~~text\n");
    match log {
        Some(text) => out.append(text.as_str()),
        None => out.append("(读取失败)"),
    }
    out.append("\n~~~\n");
    out
}

/// The name of the file that holds a diagnostic bundle.
pub fn bundle_name(now: &Moment) -> (out: String)
    ensures
        out@ == "diagnostics-"@ + now.stamp_text() + ".md"@,
{
    let mut out = cat("diagnostics-", now.stamp().as_str());
    out.append(".md");
    out
}

/// The answer to an export: where the bundle lies and what it says.
pub fn bundle_answer(path: &str, dir: &str, content: &str) -> (out: Json)
    ensures
        out@ == JsonView::Obj(
            map![
                "path"@ => JsonView::Str(path@),
                "dir"@ => JsonView::Str(dir@),
                "content"@ => JsonView::Str(content@),
            ],
        ),
{
    Json::object().with("path", Json::str(path)).with("dir", Json::str(dir)).with(
        "content",
        Json::str(content),
    )
}

// ---------------------------------------------------------------------------
// What names and lines tell
// ---------------------------------------------------------------------------

/// Ten to the power of `w`.
pub open spec fn power_of_ten(w: nat) -> nat
    decreases w,
{
    if w == 0 {
        1
    } else {
        10 * power_of_ten((w - 1) as nat)
    }
}

proof fn lemma_decimal_fits(n: nat, w: nat)
    requires
        w >= 1,
        n < power_of_ten(w),
    ensures
        crate::text::decimal(n).len() <= w,
    decreases w,
{
    if n >= 10 {
        assert(w >= 2) by {
            assert(power_of_ten(1) == 10 * power_of_ten(0));
        }
        assert(n / 10 < power_of_ten((w - 1) as nat));
        lemma_decimal_fits(n / 10, (w - 1) as nat);
    }
}

/// A number of `w` digits is written with exactly these.
proof fn lemma_padded_digits(n: nat, w: nat)
    requires
        w >= 1,
        n < power_of_ten(w),
    ensures
        crate::text::padded(n, w).len() == w,
        w == 1 ==> crate::text::padded(n, w) == seq![crate::text::digit_char(n)],
        w >= 2 ==> n / 10 < power_of_ten((w - 1) as nat),
        w >= 2 ==> crate::text::padded(n, w) == crate::text::padded(n / 10, (w - 1) as nat).push(
            crate::text::digit_char(n % 10),
        ),
{
    lemma_decimal_fits(n, w);
    let p = crate::text::padded(n, w);
    if w == 1 {
        assert(power_of_ten(1) == 10 * power_of_ten(0));
        assert(p =~= seq![crate::text::digit_char(n)]);
    } else {
        lemma_decimal_fits(n / 10, (w - 1) as nat);
        assert(p =~= crate::text::padded(n / 10, (w - 1) as nat).push(
            crate::text::digit_char(n % 10),
        ));
    }
}

/// Of two numbers with as many digits, the smaller has the lesser digit where
/// they first differ.
proof fn lemma_padded_order(n: nat, m: nat, w: nat) -> (k: int)
    requires
        w >= 1,
        n < m < power_of_ten(w),
    ensures
        0 <= k < w,
        crate::text::padded(n, w).len() == w,
        crate::text::padded(m, w).len() == w,
        crate::text::padded(n, w).take(k) == crate::text::padded(m, w).take(k),
        crate::text::padded(n, w)[k] < crate::text::padded(m, w)[k],
    decreases w,
{
    lemma_padded_digits(n, w);
    lemma_padded_digits(m, w);
    let a = crate::text::padded(n, w);
    let b = crate::text::padded(m, w);
    if w == 1 {
        assert(power_of_ten(1) == 10 * power_of_ten(0));
        assert(a.take(0) =~= b.take(0));
        0
    } else {
        let v = (w - 1) as nat;
        let c = crate::text::padded(n / 10, v);
        let d = crate::text::padded(m / 10, v);
        if n / 10 < m / 10 {
            let k = lemma_padded_order(n / 10, m / 10, v);
            assert(a.take(k) =~= c.take(k));
            assert(b.take(k) =~= d.take(k));
            assert(a[k] == c[k] && b[k] == d[k]);
            k
        } else {
            assert(n / 10 == m / 10);
            assert(n % 10 < m % 10);
            lemma_padded_digits(n / 10, v);
            assert(a.take(w - 1) =~= c);
            assert(b.take(w - 1) =~= d);
            w - 1
        }
    }
}

proof fn lemma_split_inside(
    front: Seq<char>,
    x: Seq<char>,
    y: Seq<char>,
    u: Seq<char>,
    v: Seq<char>,
    k: int,
)
    requires
        0 <= k < x.len(),
        k < y.len(),
        x.take(k) == y.take(k),
        x[k] < y[k],
    ensures
        text_before(front + x + u, front + y + v),
{
    let a = front + x + u;
    let b = front + y + v;
    let n = front.len() + k;
    assert(a.take(n) =~= front + x.take(k));
    assert(b.take(n) =~= front + y.take(k));
    assert(a[n] == x[k] && b[n] == y[k]);
    assert(splits_at(a, b, n));
}

/// Whether a moment is one that a clock can show: its numbers have at most
/// four, two and three digits.
pub open spec fn is_clock_time(t: Moment) -> bool {
    t.year < 10000 && t.month < 100 && t.day < 100 && t.hour < 100 && t.minute < 100 && t.second < 100
        && t.millis < 1000
}

/// Whether one moment is before another: in the first of year, month, day,
/// hour, minute, second and millisecond in which they differ.
pub open spec fn is_before(a: Moment, b: Moment) -> bool {
    a.year < b.year || a.year == b.year && (a.month < b.month || a.month == b.month && (a.day < b.day
        || a.day == b.day && (a.hour < b.hour || a.hour == b.hour && (a.minute < b.minute || a.minute
        == b.minute && (a.second < b.second || a.second == b.second && a.millis < b.millis)))))
}

/// The numbers of a moment, from the year down.
spec fn number_of(t: Moment, i: int) -> nat {
    if i == 0 {
        t.year as nat
    } else if i == 1 {
        t.month as nat
    } else if i == 2 {
        t.day as nat
    } else if i == 3 {
        t.hour as nat
    } else if i == 4 {
        t.minute as nat
    } else if i == 5 {
        t.second as nat
    } else {
        t.millis as nat
    }
}

/// How many digits each of them has.
spec fn width_of(i: int) -> nat {
    if i == 0 {
        4
    } else if i == 6 {
        3
    } else {
        2
    }
}

/// What stands behind each of them in the name of an archive.
spec fn sign_behind(i: int) -> Seq<char> {
    if i == 2 {
        "T"@
    } else if i == 6 {
        ".log"@
    } else {
        "-"@
    }
}

/// The name of an archive from one of the numbers on.
spec fn name_from(t: Moment, i: int) -> Seq<char>
    decreases 7 - i,
{
    if i >= 7 {
        Seq::empty()
    } else {
        crate::text::padded(number_of(t, i), width_of(i)) + (sign_behind(i) + name_from(t, i + 1))
    }
}

/// Whether a moment is before another by the numbers from one on.
spec fn before_from(a: Moment, b: Moment, i: int) -> bool
    decreases 7 - i,
{
    i < 7 && (number_of(a, i) < number_of(b, i) || number_of(a, i) == number_of(b, i) && before_from(
        a,
        b,
        i + 1,
    ))
}

proof fn lemma_name_unfolds(t: Moment)
    ensures
        name_from(t, 0) == crate::text::padded(t.year as nat, 4) + ("-"@ + name_from(t, 1)),
        name_from(t, 1) == crate::text::padded(t.month as nat, 2) + ("-"@ + name_from(t, 2)),
        name_from(t, 2) == crate::text::padded(t.day as nat, 2) + ("T"@ + name_from(t, 3)),
        name_from(t, 3) == crate::text::padded(t.hour as nat, 2) + ("-"@ + name_from(t, 4)),
        name_from(t, 4) == crate::text::padded(t.minute as nat, 2) + ("-"@ + name_from(t, 5)),
        name_from(t, 5) == crate::text::padded(t.second as nat, 2) + ("-"@ + name_from(t, 6)),
        name_from(t, 6) == crate::text::padded(t.millis as nat, 3) + ".log"@,
{
    assert(name_from(t, 7) =~= Seq::<char>::empty());
    assert(".log"@ + name_from(t, 7) =~= ".log"@);
}

/// Putting texts in a row does not depend on where one begins.
proof fn lemma_in_a_row(a: Seq<char>, b: Seq<char>, c: Seq<char>)
    ensures
        (a + b) + c == a + (b + c),
{
    assert((a + b) + c =~= a + (b + c));
}

proof fn lemma_three_numbers(
    a: Seq<char>,
    b: Seq<char>,
    c: Seq<char>,
    sep: Seq<char>,
    rest: Seq<char>,
)
    ensures
        (a + sep + b + sep + c) + rest == a + (sep + (b + (sep + (c + rest)))),
{
    lemma_in_a_row(a + sep + b + sep, c, rest);
    lemma_in_a_row(a + sep + b, sep, c + rest);
    lemma_in_a_row(a + sep, b, sep + (c + rest));
    lemma_in_a_row(a, sep, b + (sep + (c + rest)));
}

proof fn lemma_name_from(t: Moment)
    ensures
        archive_text(t) == "dsh.log_"@ + name_from(t, 0),
{
    lemma_name_unfolds(t);
    let x = crate::text::padded(t.millis as nat, 3);
    let date = t.date_text();
    let clock = t.clock_text("-"@);
    lemma_three_numbers(
        crate::text::padded(t.hour as nat, 2),
        crate::text::padded(t.minute as nat, 2),
        crate::text::padded(t.second as nat, 2),
        "-"@,
        "-"@ + (x + ".log"@),
    );
    lemma_three_numbers(
        crate::text::padded(t.year as nat, 4),
        crate::text::padded(t.month as nat, 2),
        crate::text::padded(t.day as nat, 2),
        "-"@,
        "T"@ + name_from(t, 3),
    );
    assert(clock + ("-"@ + (x + ".log"@)) == name_from(t, 3));
    assert(date + ("T"@ + name_from(t, 3)) == name_from(t, 0));
    lemma_in_a_row(date + "T"@ + clock + "-"@, x, ".log"@);
    lemma_in_a_row(date + "T"@ + clock, "-"@, x + ".log"@);
    lemma_in_a_row(date + "T"@, clock, "-"@ + (x + ".log"@));
    lemma_in_a_row(date, "T"@, name_from(t, 3));
    assert(t.stamp_text() + ".log"@ == name_from(t, 0));
    lemma_in_a_row("dsh.log_"@, t.stamp_text(), ".log"@);
}

proof fn lemma_names_split(a: Moment, b: Moment, front: Seq<char>, i: int)
    requires
        is_clock_time(a),
        is_clock_time(b),
        0 <= i,
        before_from(a, b, i),
    ensures
        text_before(front + name_from(a, i), front + name_from(b, i)),
    decreases 7 - i,
{
    let n = number_of(a, i);
    let m = number_of(b, i);
    let w = width_of(i);
    assert(power_of_ten(2) == 100 && power_of_ten(3) == 1000 && power_of_ten(4) == 10000) by {
        reveal_with_fuel(power_of_ten, 5);
    }
    let x = crate::text::padded(n, w);
    let y = crate::text::padded(m, w);
    let u = sign_behind(i) + name_from(a, i + 1);
    let v = sign_behind(i) + name_from(b, i + 1);
    assert(front + name_from(a, i) =~= front + x + u);
    assert(front + name_from(b, i) =~= front + y + v);
    if n < m {
        let k = lemma_padded_order(n, m, w);
        lemma_split_inside(front, x, y, u, v, k);
    } else {
        let next = front + x + sign_behind(i);
        lemma_names_split(a, b, next, i + 1);
        assert(next + name_from(a, i + 1) =~= front + x + u);
        assert(next + name_from(b, i + 1) =~= front + y + v);
    }
}

/// The archive of a later session has the later name, so that the order of
/// the names is the order of the sessions.
pub proof fn law_later_archives_have_later_names(a: Moment, b: Moment)
    requires
        is_clock_time(a),
        is_clock_time(b),
        is_before(a, b),
    ensures
        text_before(archive_text(a), archive_text(b)),
{
    reveal_with_fuel(before_from, 8);
    assert(before_from(a, b, 0));
    lemma_names_split(a, b, "dsh.log_"@, 0);
    lemma_name_from(a);
    lemma_name_from(b);
}

/// An archive stays for seven days, and one of unknown age is not too old.
pub proof fn law_archives_stay_for_seven_days(a: Archive)
    ensures
        a.age matches Some(age) ==> (fresh(a) <==> age <= 7 * 24 * 60 * 60 * 1_000_000_000),
        a.age is None ==> fresh(a),
{
}

/// As long as there are no more than twenty, every archive that is fresh
/// stays, and no other.
pub proof fn law_twenty_archives_may_stay(list: Seq<Archive>, i: int)
    requires
        0 <= i < list.len() <= 20,
    ensures
        stays(list, i) <==> fresh(list[i]),
{
    lemma_newer_count_bound(list, i, list.len());
}

proof fn lemma_newer_count_bound(list: Seq<Archive>, i: int, n: nat)
    requires
        0 <= i < list.len(),
        n <= list.len(),
    ensures
        newer_count(list, i, n) <= n,
        i < n ==> newer_count(list, i, n) < n,
    decreases n,
{
    if n > 0 {
        lemma_newer_count_bound(list, i, (n - 1) as nat);
        if i == n - 1 {
            let name = list[i].name@;
            if text_before(name, name) {
                let k = choose|k: int| #[trigger] splits_at(name, name, k);
            }
            assert(!after(list, i, i));
        }
    }
}

/// A line of the log ends with its message, and what stands before it depends
/// on the moment and the level alone.
pub proof fn law_a_log_line_ends_with_its_message(
    now: Moment,
    level: LogLevel,
    message: Seq<char>,
    other: Seq<char>,
)
    ensures
        crate::text::ends_with(event_line(now, level, message), message),
        event_line(now, level, message).take(
            event_line(now, level, message).len() - message.len(),
        ) == event_line(now, level, other).take(event_line(now, level, other).len() - other.len()),
        event_line(now, level, Seq::empty()).len() > 0,
        event_line(now, level, message)[0] == '[',
{
    reveal_strlit("[");
    let line = event_line(now, level, message);
    let head = "["@ + now.date_text() + " "@ + now.clock_text(":"@) + "] ["@ + level.tag_text()
        + "] "@;
    assert(line =~= head + message);
    crate::text::law_containing_is_being_cut_around(line, message);
    let second = event_line(now, level, other);
    assert(line.take(line.len() - message.len()) =~= head);
    assert(second.take(second.len() - other.len()) =~= head);
}

/// The diagnostic bundle holds the report of the environment and the whole log
/// of the session.
pub proof fn law_the_bundle_holds_report_and_log(
    now: Moment,
    version: Seq<char>,
    exe: Seq<char>,
    log_dir: Seq<char>,
    info: Seq<char>,
    log: Seq<char>,
)
    ensures
        crate::text::contains(bundle_text(now, version, exe, log_dir, info, log), info),
        crate::text::contains(bundle_text(now, version, exe, log_dir, info, log), log),
        crate::text::contains(bundle_text(now, version, exe, log_dir, info, log), version),
        shown_log(Some(log)) == log,
{
    let all = bundle_text(now, version, exe, log_dir, info, log);
    let a = "# DSH Desktop 诊断包\n\n"@ + "- 生成时间: "@ + now.date_text() + " "@ + now.clock_text(
        ":"@,
    ) + "\n"@ + "- 应用: v"@;
    let b = " ("@ + exe + ")\n"@ + "- 日志目录: "@ + log_dir + "\n\n"@ + "## 环境配置 (env_info)\n\n"@
        + "```json\n"@;
    let c = "\n```\n\n"@ + "## 本次会话日志 (dsh.log,仅壳事件)\n\n"@ + "~~~text\n"@;
    let d = "\n~~~\n"@;
    assert(all =~= a + version + (b + info + c + log + d));
    assert(all =~= (a + version + b) + info + (c + log + d));
    assert(all =~= (a + version + b + info + c) + log + d);
    crate::text::law_containing_is_being_cut_around(all, version);
    crate::text::law_containing_is_being_cut_around(all, info);
    crate::text::law_containing_is_being_cut_around(all, log);
}

/// The log pane gets between 50 and 1000 lines, and what it asks for where
/// that lies between.
pub proof fn law_the_pane_gets_what_it_asks_for(asked: int)
    ensures
        50 <= pane_count(asked) <= 1000,
        50 <= asked <= 1000 ==> pane_count(asked) == asked,
        asked > 1000 ==> pane_count(asked) == 1000,
        asked < 50 ==> pane_count(asked) == 50,
{
}

} // verus!
