//! The npm side: which registry is faster, the global installation, and
//! whether a newer DSH has been published.

use std::cmp::Ordering;
use vstd::prelude::*;

use crate::json::{Json, JsonView};
use crate::text::{cat, cat3, chars_of, find, is_at, is_blank, read_u32, signed_string, split_pieces, str_eq, sub_chars, trim_chars};

verus! {

/// The official npm registry.
pub const REGISTRY_NPMJS: &'static str = "https://registry.npmjs.org";

/// The mirror of the npm registry in China.
pub const REGISTRY_NPMMIRROR: &'static str = "https://registry.npmmirror.com";

// ---------------------------------------------------------------------------
// Registries
// ---------------------------------------------------------------------------

/// The address of the package's latest metadata in a registry.
pub fn latest_url(base: &str) -> (out: String)
    ensures
        out@ == base@ + "/@deepseek-ai/dsh/latest"@,
{
    cat(base, "/@deepseek-ai/dsh/latest")
}

/// The faster of the two registries by their answer times; the official one
/// when they are even; none when neither answered.
pub open spec fn fastest_registry(npmjs: Option<u64>, mirror: Option<u64>) -> Option<Seq<char>> {
    match (npmjs, mirror) {
        (Some(a), Some(b)) => Some(
            if a <= b {
                "npmjs"@
            } else {
                "npmmirror"@
            },
        ),
        (Some(_), None) => Some("npmjs"@),
        (None, Some(_)) => Some("npmmirror"@),
        (None, None) => None,
    }
}

/// The faster of the two registries.
pub fn fastest(npmjs: Option<u64>, mirror: Option<u64>) -> (out: Option<String>)
    ensures
        crate::text::opt_text(out) == fastest_registry(npmjs, mirror),
{
    match (npmjs, mirror) {
        (Some(a), Some(b)) => Some(
            if a <= b {
                "npmjs".to_string()
            } else {
                "npmmirror".to_string()
            },
        ),
        (Some(_), None) => Some("npmjs".to_string()),
        (None, Some(_)) => Some("npmmirror".to_string()),
        (None, None) => None,
    }
}

/// A number, or null where there is none.
pub open spec fn opt_number(n: Option<u64>) -> JsonView {
    match n {
        Some(u) => JsonView::Integer(u as int),
        None => JsonView::Null,
    }
}

fn json_number(n: Option<u64>) -> (out: Json)
    ensures
        out@ == opt_number(n),
{
    match n {
        Some(u) => Json::UInt(u),
        None => Json::Null,
    }
}

/// The probe result for the source chooser of the boot page.
pub fn probe_report(npmjs: Option<u64>, mirror: Option<u64>) -> (out: Json)
    ensures
        out@ == JsonView::Obj(
            map![
                "npmjsMs"@ => opt_number(npmjs),
                "npmmirrorMs"@ => opt_number(mirror),
                "fastest"@ => crate::json::opt_str_view(fastest_registry(npmjs, mirror)),
            ],
        ),
{
    let out = Json::object().with("npmjsMs", json_number(npmjs)).with(
        "npmmirrorMs",
        json_number(mirror),
    ).with("fastest", Json::opt_str(&fastest(npmjs, mirror)));
    out
}

// ---------------------------------------------------------------------------
// Global installation
// ---------------------------------------------------------------------------

/// The command of a global installation, from a given registry or npm's own
/// default.
pub open spec fn install_command(registry: Option<Seq<char>>) -> Seq<char> {
    match registry {
        Some(url) => "npm install -g @deepseek-ai/dsh --registry="@ + url,
        None => "npm install -g @deepseek-ai/dsh"@,
    }
}

/// The registry that the installation uses: one of the two known ones, or
/// npm's default for anything else.
pub open spec fn allowed_registry(registry: Option<Seq<char>>) -> Option<Seq<char>> {
    match registry {
        Some(url) => if url == REGISTRY_NPMJS@ || url == REGISTRY_NPMMIRROR@ {
            Some(url)
        } else {
            None
        },
        None => None,
    }
}

/// What the boot page shows during the installation.
pub open spec fn install_label(registry: Option<Seq<char>>) -> Seq<char> {
    match registry {
        Some(url) => if url == REGISTRY_NPMMIRROR@ {
            "npm 全局安装中(国内镜像,约 1-3 分钟)"@
        } else {
            "npm 全局安装中(官方源,约 1-3 分钟)"@
        },
        None => "npm 全局安装中(约 1-3 分钟)"@,
    }
}

/// A global installation: what to show and what to run.
pub struct InstallPlan {
    pub label: String,
    pub command: String,
}

/// Plans a global installation. Only the two known registries may enter the
/// command line.
pub fn install_plan(registry: &Option<String>) -> (out: InstallPlan)
    ensures
        out.label@ == install_label(allowed_registry(crate::text::opt_text(*registry))),
        out.command@ == install_command(allowed_registry(crate::text::opt_text(*registry))),
{
    match registry {
        Some(url) => {
            if str_eq(url.as_str(), REGISTRY_NPMMIRROR) {
                return InstallPlan {
                    label: "npm 全局安装中(国内镜像,约 1-3 分钟)".to_string(),
                    command: cat("npm install -g @deepseek-ai/dsh --registry=", url.as_str()),
                };
            }
            if str_eq(url.as_str(), REGISTRY_NPMJS) {
                return InstallPlan {
                    label: "npm 全局安装中(官方源,约 1-3 分钟)".to_string(),
                    command: cat("npm install -g @deepseek-ai/dsh --registry=", url.as_str()),
                };
            }
        },
        None => {},
    }
    InstallPlan {
        label: "npm 全局安装中(约 1-3 分钟)".to_string(),
        command: "npm install -g @deepseek-ai/dsh".to_string(),
    }
}

/// Whatever registry is asked for, the command is one of three fixed ones.
pub proof fn law_only_known_registries_reach_the_command_line(registry: Option<Seq<char>>)
    ensures
        ({
            let command = install_command(allowed_registry(registry));
            ||| command == "npm install -g @deepseek-ai/dsh"@
            ||| command == "npm install -g @deepseek-ai/dsh --registry="@ + REGISTRY_NPMJS@
            ||| command == "npm install -g @deepseek-ai/dsh --registry="@ + REGISTRY_NPMMIRROR@
        }),
{
}

/// The message of an installation that failed with an exit code.
pub open spec fn failed_message(code: Option<i32>, local_app_data: Seq<char>) -> Seq<char> {
    "npm 全局安装失败(退出码 "@ + crate::text::signed_decimal(
        match code {
            Some(c) => c as int,
            None => -1,
        },
    ) + ")。详见日志 "@ + local_app_data
        + "\\dsh.log,或改用「下载并启动(npx)」/手动路径。"@
}

/// The message of an installation that failed with an exit code.
pub fn install_failed(code: Option<i32>, local_app_data: &str) -> (out: String)
    ensures
        out@ == failed_message(code, local_app_data@),
{
    let code: i32 = match code {
        Some(c) => c,
        None => -1,
    };
    let mut out = cat("npm 全局安装失败(退出码 ", signed_string(code).as_str());
    out.append(")。详见日志 ");
    out.append(local_app_data);
    out.append("\\dsh.log,或改用「下载并启动(npx)」/手动路径。");
    out
}

/// The message of an installation that could not be run.
pub open spec fn not_run_message(error: Seq<char>) -> Seq<char> {
    "无法运行 npm(需要已安装 Node.js):"@ + error
}

/// The message of an installation that could not be run.
pub fn install_not_run(error: &str) -> (out: String)
    ensures
        out@ == not_run_message(error@),
{
    cat("无法运行 npm(需要已安装 Node.js):", error)
}

/// What came of the command of an installation.
pub enum InstallOutcome {
    /// It ran to its end.
    Ran { success: bool, code: Option<i32> },
    /// It could not be run.
    NotRun { error: String },
}

/// What follows an installation.
pub enum InstallStep {
    /// DSH is started anew.
    Retry,
    /// The boot page shows what went wrong.
    Report { message: String },
}

/// The message of an installation that went wrong, `None` for one that went
/// well.
pub open spec fn install_trouble(outcome: InstallOutcome, local_app_data: Seq<char>) -> Option<
    Seq<char>,
> {
    match outcome {
        InstallOutcome::Ran { success: true, .. } => None,
        InstallOutcome::Ran { success: false, code } => Some(
            failed_message(code, local_app_data),
        ),
        InstallOutcome::NotRun { error } => Some(not_run_message(error@)),
    }
}

/// What follows an installation: DSH is started anew exactly where the command
/// succeeded.
pub fn install_step(outcome: &InstallOutcome, local_app_data: &str) -> (out: InstallStep)
    ensures
        match out {
            InstallStep::Retry => install_trouble(*outcome, local_app_data@) is None,
            InstallStep::Report { message } => install_trouble(*outcome, local_app_data@) == Some(
                message@,
            ),
        },
{
    match outcome {
        InstallOutcome::Ran { success, code } => if *success {
            InstallStep::Retry
        } else {
            InstallStep::Report { message: install_failed(*code, local_app_data) }
        },
        InstallOutcome::NotRun { error } => InstallStep::Report {
            message: install_not_run(error.as_str()),
        },
    }
}

// ---------------------------------------------------------------------------
// Versions
// ---------------------------------------------------------------------------

/// The version that a registry's or a package's metadata names.
pub open spec fn version_in(metadata: Option<JsonView>) -> Option<Seq<char>> {
    match metadata {
        Some(j) => crate::json::get_text(j, "version"@),
        None => None,
    }
}

/// The version that a metadata document names.
pub fn metadata_version(document: &Json) -> (out: Option<String>)
    ensures
        crate::text::opt_text(out) == version_in(Some(document@)),
{
    document.get_str("version")
}

/// The version that a metadata text names.
pub fn read_version(text: &str) -> (out: Option<String>)
    ensures
        crate::text::opt_text(out) == version_in(crate::json::json_parse(text@)),
{
    match Json::parse(text) {
        Some(j) => metadata_version(&j),
        None => None,
    }
}

/// The registries that are asked for the newest version, in order.
pub open spec fn asked_registries() -> Seq<Seq<char>> {
    seq![REGISTRY_NPMJS@, REGISTRY_NPMMIRROR@]
}

/// The version that the answer of a registry names, where there was one.
pub open spec fn answer_version(answer: Option<Seq<char>>) -> Option<Seq<char>> {
    match answer {
        Some(text) => version_in(crate::json::json_parse(text)),
        None => None,
    }
}

/// What the registries have answered.
pub open spec fn answer_texts(answers: Seq<Option<String>>) -> Seq<Option<Seq<char>>> {
    answers.map_values(|a: Option<String>| crate::text::opt_text(a))
}

/// The first version that the answers name.
pub open spec fn first_version(answers: Seq<Option<Seq<char>>>) -> Option<Seq<char>>
    decreases answers.len(),
{
    if answers.len() == 0 {
        None
    } else {
        match first_version(answers.drop_last()) {
            Some(version) => Some(version),
            None => answer_version(answers.last()),
        }
    }
}

/// What follows in the search for the newest version.
pub enum SearchStep {
    /// This address is asked.
    Ask { url: String },
    /// The search is over, with or without a version.
    Done { version: Option<String> },
}

/// The meaning of it.
pub enum SearchView {
    Ask { url: Seq<char> },
    Done { version: Option<Seq<char>> },
}

impl SearchStep {
    /// The meaning of it.
    pub open spec fn view(&self) -> SearchView {
        match *self {
            SearchStep::Ask { url } => SearchView::Ask { url: url@ },
            SearchStep::Done { version } => SearchView::Done {
                version: crate::text::opt_text(version),
            },
        }
    }
}

/// What follows in the search for the newest version, from the answers so far.
pub open spec fn search_next(answers: Seq<Option<Seq<char>>>) -> SearchView {
    if first_version(answers) is None && answers.len() < asked_registries().len() {
        SearchView::Ask {
            url: asked_registries()[answers.len() as int] + "/@deepseek-ai/dsh/latest"@,
        }
    } else {
        SearchView::Done { version: first_version(answers) }
    }
}

/// What follows in the search for the newest version, from the answers of the
/// registries so far, in the order in which they were asked.
pub fn search_step(answers: &Vec<Option<String>>) -> (out: SearchStep)
    ensures
        out@ == search_next(answer_texts(answers@)),
{
    let ghost all = answer_texts(answers@);
    let mut i: usize = 0;
    assert(all.take(0) =~= Seq::empty());
    while i < answers.len()
        invariant
            i <= answers@.len(),
            all == answer_texts(answers@),
            first_version(all.take(i as int)) is None,
        decreases answers@.len() - i,
    {
        let ghost upto = all.take(i + 1);
        assert(upto.drop_last() =~= all.take(i as int));
        assert(upto.last() == crate::text::opt_text(answers@[i as int]));
        let version = match &answers[i] {
            Some(text) => read_version(text.as_str()),
            None => None,
        };
        if version.is_some() {
            proof {
                lemma_first_version_stays(all, i + 1);
            }
            return SearchStep::Done { version };
        }
        i = i + 1;
    }
    assert(all.take(i as int) =~= all);
    if i == 0 {
        SearchStep::Ask { url: latest_url(REGISTRY_NPMJS) }
    } else if i == 1 {
        SearchStep::Ask { url: latest_url(REGISTRY_NPMMIRROR) }
    } else {
        SearchStep::Done { version: None }
    }
}

proof fn lemma_first_version_stays(answers: Seq<Option<Seq<char>>>, n: int)
    requires
        0 <= n <= answers.len(),
        first_version(answers.take(n)) is Some,
    ensures
        first_version(answers) == first_version(answers.take(n)),
    decreases answers.len() - n,
{
    if n < answers.len() {
        assert(answers.take(n + 1).drop_last() =~= answers.take(n));
        lemma_first_version_stays(answers, n + 1);
    } else {
        assert(answers.take(n) =~= answers);
    }
}

/// The official registry is asked first. The mirror is asked exactly where the
/// official one named no version, and nothing else is asked. The version is
/// the official one where it was named, and that of the mirror otherwise.
pub proof fn law_the_official_registry_goes_first(
    official: Option<Seq<char>>,
    mirror: Option<Seq<char>>,
)
    ensures
        search_next(Seq::empty()) == (SearchView::Ask {
            url: REGISTRY_NPMJS@ + "/@deepseek-ai/dsh/latest"@,
        }),
        search_next(seq![official]) == (match answer_version(official) {
            Some(version) => SearchView::Done { version: Some(version) },
            None => SearchView::Ask { url: REGISTRY_NPMMIRROR@ + "/@deepseek-ai/dsh/latest"@ },
        }),
        answer_version(official) is None ==> search_next(seq![official, mirror]) == (
        SearchView::Done { version: answer_version(mirror) }),
{
    let one = seq![official];
    let two = seq![official, mirror];
    assert(one.drop_last() =~= Seq::empty());
    assert(two.drop_last() =~= one);
    assert(first_version(Seq::<Option<Seq<char>>>::empty()) is None);
    assert(first_version(one) == answer_version(official));
    assert(first_version(two) == match first_version(one) {
        Some(version) => Some(version),
        None => answer_version(mirror),
    });
}

/// A number of a version; zero where the text is no number.
pub open spec fn number_or_zero(s: Seq<char>) -> u32 {
    match crate::text::parse_u32(s) {
        Some(n) => n,
        None => 0,
    }
}

/// The part of a version before the first dash.
pub open spec fn version_base(v: Seq<char>) -> Seq<char> {
    match crate::text::index_of(v, "-"@) {
        Some(k) => v.take(k),
        None => v,
    }
}

/// The part of a version behind the first dash.
pub open spec fn version_suffix(v: Seq<char>) -> Seq<char> {
    match crate::text::index_of(v, "-"@) {
        Some(k) => v.skip(k + 1),
        None => Seq::empty(),
    }
}

/// The dotted numbers of a version.
pub open spec fn version_numbers(v: Seq<char>) -> Seq<u32> {
    crate::text::pieces(version_base(v), "."@).map_values(|s: Seq<char>| number_or_zero(s))
}

/// The text of a candidate's number, out of what stands behind `rc`: a dot may
/// come before it, as in `rc.8`.
pub open spec fn candidate_number(rest: Seq<char>) -> Seq<char> {
    let inner = crate::text::trim(rest);
    if crate::text::starts_with(inner, "."@) {
        inner.skip(1)
    } else {
        inner
    }
}

/// The rank of a release, above that of every candidate.
pub const RELEASE_RANK: u64 = 0x1_0000_0000;

/// The rank of a version among those with the same numbers: a release comes
/// above its candidates, a candidate goes by its number, and any other suffix
/// ranks lowest.
pub open spec fn version_rank(v: Seq<char>) -> u64 {
    let suffix = version_suffix(v);
    if crate::text::index_of(v, "-"@) is None {
        RELEASE_RANK
    } else if crate::text::starts_with(suffix, "rc"@) {
        number_or_zero(candidate_number(suffix.skip(2))) as u64
    } else {
        0
    }
}

/// The `i`-th number; zero behind the last.
pub open spec fn number_at(s: Seq<u32>, i: int) -> u32 {
    if 0 <= i < s.len() {
        s[i]
    } else {
        0
    }
}

/// Whether two versions have the same numbers up to position `n`.
pub open spec fn same_upto(a: Seq<u32>, b: Seq<u32>, n: int) -> bool {
    forall|j: int| 0 <= j < n ==> #[trigger] number_at(a, j) == number_at(b, j)
}

/// Whether the first number in which two versions differ is larger in `a`.
pub open spec fn numbers_above(a: Seq<u32>, b: Seq<u32>) -> bool {
    exists|i: int|
        0 <= i && #[trigger] number_at(a, i) > number_at(b, i) && same_upto(a, b, i)
}

/// Whether two versions have the same numbers.
pub open spec fn numbers_equal(a: Seq<u32>, b: Seq<u32>) -> bool {
    forall|j: int| 0 <= j ==> #[trigger] number_at(a, j) == number_at(b, j)
}

/// Whether version `a` is newer than version `b`: by the numbers, and where
/// these are the same, by the rank.
pub open spec fn newer(a: Seq<char>, b: Seq<char>) -> bool {
    let x = version_numbers(a);
    let y = version_numbers(b);
    numbers_above(x, y) || numbers_equal(x, y) && version_rank(a) > version_rank(b)
}

fn read_candidate(suffix: &Vec<char>) -> (rank: u64)
    ensures
        rank == (if crate::text::starts_with(suffix@, "rc"@) {
            number_or_zero(candidate_number(suffix@.skip(2))) as u64
        } else {
            0
        }),
{
    proof {
        reveal_strlit("rc");
        reveal_strlit(".");
    }
    if !is_at(suffix, &chars_of("rc"), 0) {
        return 0;
    }
    let rest = sub_chars(suffix, 2, suffix.len());
    assert(rest@ =~= suffix@.skip(2));
    let inner = trim_chars(&rest);
    let dotted = is_at(&inner, &chars_of("."), 0);
    let from: usize = if dotted {
        1
    } else {
        0
    };
    let number = sub_chars(&inner, from, inner.len());
    assert(number@ =~= candidate_number(suffix@.skip(2)));
    match read_u32(&number) {
        Some(n) => n as u64,
        None => 0,
    }
}

fn version_parts(v: &str) -> (out: (Vec<u32>, u64))
    ensures
        out.0@ == version_numbers(v@),
        out.1 == version_rank(v@),
{
    let chars = chars_of(v);
    let len: usize = chars.len();
    proof {
        reveal_strlit("-");
        reveal_strlit(".");
    }
    let (base, rank) = match find(&chars, &chars_of("-")) {
        Some(k) => {
            let base = sub_chars(&chars, 0, k);
            let suffix = sub_chars(&chars, k + 1, len);
            assert(base@ =~= version_base(v@));
            assert(suffix@ =~= version_suffix(v@));
            let rank: u64 = read_candidate(&suffix);
            (base, rank)
        },
        None => {
            let base = sub_chars(&chars, 0, len);
            assert(base@ =~= version_base(v@));
            (base, RELEASE_RANK)
        },
    };
    let pieces = split_pieces(&base, &chars_of("."));
    let ghost parts = crate::text::texts(pieces@);
    let mut numbers: Vec<u32> = Vec::new();
    let mut i: usize = 0;
    while i < pieces.len()
        invariant
            i <= pieces@.len(),
            parts == crate::text::texts(pieces@),
            numbers@ == parts.take(i as int).map_values(|s: Seq<char>| number_or_zero(s)),
        decreases pieces@.len() - i,
    {
        assert(parts[i as int] == pieces@[i as int]@);
        let n: u32 = match read_u32(&pieces[i]) {
            Some(n) => n,
            None => 0,
        };
        numbers.push(n);
        i = i + 1;
        assert(numbers@ =~= parts.take(i as int).map_values(|s: Seq<char>| number_or_zero(s)));
    }
    assert(parts.take(parts.len() as int) =~= parts);
    (numbers, rank)
}

/// The first position at or after `i` where two versions differ.
fn first_difference(a: &Vec<u32>, b: &Vec<u32>) -> (out: Option<(u32, u32)>)
    ensures
        match out {
            Some((x, y)) => x != y && exists|i: int|
                0 <= i && #[trigger] number_at(a@, i) == x && number_at(b@, i) == y && same_upto(
                    a@,
                    b@,
                    i,
                ),
            None => numbers_equal(a@, b@),
        },
{
    let mut i: usize = 0;
    let len: usize = if a.len() > b.len() {
        a.len()
    } else {
        b.len()
    };
    while i < len
        invariant
            i <= len,
            len >= a@.len(),
            len >= b@.len(),
            same_upto(a@, b@, i as int),
        decreases len - i,
    {
        let x: u32 = if i < a.len() {
            a[i]
        } else {
            0
        };
        let y: u32 = if i < b.len() {
            b[i]
        } else {
            0
        };
        assert(x == number_at(a@, i as int) && y == number_at(b@, i as int));
        if x != y {
            return Some((x, y));
        }
        i = i + 1;
    }
    assert(numbers_equal(a@, b@)) by {
        assert forall|j: int| 0 <= j implies #[trigger] number_at(a@, j) == number_at(b@, j) by {}
    }
    None
}

fn u32_order(a: u32, b: u32) -> (out: Ordering)
    ensures
        out == (if a < b {
            Ordering::Less
        } else if a > b {
            Ordering::Greater
        } else {
            Ordering::Equal
        }),
{
    if a < b {
        Ordering::Less
    } else if a > b {
        Ordering::Greater
    } else {
        Ordering::Equal
    }
}

fn rank_order(a: u64, b: u64) -> (out: Ordering)
    ensures
        out == (if a < b {
            Ordering::Less
        } else if a > b {
            Ordering::Greater
        } else {
            Ordering::Equal
        }),
{
    if a < b {
        Ordering::Less
    } else if a > b {
        Ordering::Greater
    } else {
        Ordering::Equal
    }
}

/// Compares two versions: `Greater` means that `a` is newer than `b`.
pub fn cmp_ver(a: &str, b: &str) -> (out: Ordering)
    ensures
        out == Ordering::Greater <==> newer(a@, b@),
        out == Ordering::Less <==> newer(b@, a@),
{
    let (x, rx) = version_parts(a);
    let (y, ry) = version_parts(b);
    proof {
        law_newer_is_a_strict_order(a@, b@, b@);
    }
    match first_difference(&x, &y) {
        Some((p, q)) => {
            proof {
                let i = choose|i: int|
                    0 <= i && #[trigger] number_at(x@, i) == p && number_at(y@, i) == q
                        && same_upto(x@, y@, i);
                assert(number_at(x@, i) == p);
                if p > q {
                    assert(numbers_above(x@, y@));
                } else {
                    assert(same_upto(y@, x@, i)) by {
                        assert forall|j: int| 0 <= j < i implies #[trigger] number_at(y@, j)
                            == number_at(x@, j) by {
                            assert(number_at(x@, j) == number_at(y@, j));
                        }
                    }
                    assert(number_at(y@, i) > number_at(x@, i));
                    assert(numbers_above(y@, x@));
                }
            }
            u32_order(p, q)
        },
        None => {
            proof {
                lemma_equal_not_above(x@, y@);
                lemma_equal_not_above(y@, x@);
            }
            rank_order(rx, ry)
        },
    }
}

proof fn lemma_equal_not_above(a: Seq<u32>, b: Seq<u32>)
    requires
        numbers_equal(a, b) || numbers_equal(b, a),
    ensures
        numbers_equal(a, b),
        numbers_equal(b, a),
        !numbers_above(a, b),
{
    assert forall|j: int| 0 <= j implies #[trigger] number_at(a, j) == number_at(b, j) by {
        assert(number_at(b, j) == number_at(a, j));
    }
    assert forall|j: int| 0 <= j implies #[trigger] number_at(b, j) == number_at(a, j) by {
        assert(number_at(a, j) == number_at(b, j));
    }
    if numbers_above(a, b) {
        let i = choose|i: int|
            0 <= i && #[trigger] number_at(a, i) > number_at(b, i) && same_upto(a, b, i);
        assert(number_at(a, i) == number_at(b, i));
    }
}

proof fn lemma_above_is_strict(a: Seq<u32>, b: Seq<u32>)
    requires
        numbers_above(a, b),
    ensures
        !numbers_above(b, a),
        !numbers_equal(a, b),
        !numbers_equal(b, a),
{
    let i = choose|i: int|
        0 <= i && #[trigger] number_at(a, i) > number_at(b, i) && same_upto(a, b, i);
    if numbers_above(b, a) {
        let k = choose|k: int|
            0 <= k && #[trigger] number_at(b, k) > number_at(a, k) && same_upto(b, a, k);
        if i < k {
            assert(number_at(b, i) == number_at(a, i));
        } else if k < i {
            assert(number_at(a, k) == number_at(b, k));
        }
    }
    if numbers_equal(a, b) || numbers_equal(b, a) {
        lemma_equal_not_above(a, b);
    }
}

proof fn lemma_above_chains(a: Seq<u32>, b: Seq<u32>, c: Seq<u32>)
    requires
        numbers_above(a, b) || numbers_equal(a, b),
        numbers_above(b, c) || numbers_equal(b, c),
    ensures
        numbers_above(a, b) || numbers_above(b, c) ==> numbers_above(a, c),
        numbers_equal(a, b) && numbers_equal(b, c) ==> numbers_equal(a, c),
{
    if numbers_equal(a, b) && numbers_equal(b, c) {
        assert forall|j: int| 0 <= j implies #[trigger] number_at(a, j) == number_at(c, j) by {
            assert(number_at(a, j) == number_at(b, j));
            assert(number_at(b, j) == number_at(c, j));
        }
    }
    if numbers_above(a, b) || numbers_above(b, c) {
        let i = if numbers_above(a, b) {
            choose|i: int|
                0 <= i && #[trigger] number_at(a, i) > number_at(b, i) && same_upto(a, b, i)
        } else {
            -1
        };
        let k = if numbers_above(b, c) {
            choose|k: int|
                0 <= k && #[trigger] number_at(b, k) > number_at(c, k) && same_upto(b, c, k)
        } else {
            -1
        };
        let m = if i < 0 {
            k
        } else if k < 0 || i < k {
            i
        } else {
            k
        };
        assert forall|j: int| 0 <= j < m implies #[trigger] number_at(a, j) == number_at(c, j) by {
            assert(number_at(a, j) == number_at(b, j));
            assert(number_at(b, j) == number_at(c, j));
        }
        assert(number_at(a, m) >= number_at(b, m)) by {
            assert(number_at(a, m) == number_at(b, m) || i == m);
        }
        assert(number_at(b, m) >= number_at(c, m)) by {
            assert(number_at(b, m) == number_at(c, m) || k == m);
        }
        assert(number_at(a, m) > number_at(c, m));
        assert(numbers_above(a, c));
    }
}

/// "Newer" is a strict order: no version is newer than itself, of two versions
/// at most one is newer, and it carries over from version to version.
pub proof fn law_newer_is_a_strict_order(a: Seq<char>, b: Seq<char>, c: Seq<char>)
    ensures
        !newer(a, a),
        !(newer(a, b) && newer(b, a)),
        newer(a, b) && newer(b, c) ==> newer(a, c),
{
    let x = version_numbers(a);
    let y = version_numbers(b);
    let z = version_numbers(c);
    if numbers_above(x, x) {
        lemma_above_is_strict(x, x);
    }
    if newer(a, b) && newer(b, a) {
        if numbers_above(x, y) {
            lemma_above_is_strict(x, y);
        }
        if numbers_above(y, x) {
            lemma_above_is_strict(y, x);
        }
    }
    if newer(a, b) && newer(b, c) {
        lemma_above_chains(x, y, z);
    }
}

/// A release is newer than its own candidates, whatever their suffix.
pub proof fn law_a_release_is_newer_than_its_candidates(release: Seq<char>, other: Seq<char>)
    requires
        crate::text::index_of(release, "-"@) is None,
        crate::text::index_of(other, "-"@) is Some,
        version_base(other) == release,
    ensures
        newer(release, other),
{
}

/// Versions of which neither is newer are interchangeable: what is newer than
/// one of them is newer than the other.
pub proof fn law_even_versions_compare_alike(a: Seq<char>, b: Seq<char>, c: Seq<char>)
    requires
        !newer(a, b),
        !newer(b, a),
    ensures
        newer(a, c) <==> newer(b, c),
        newer(c, a) <==> newer(c, b),
{
    let x = version_numbers(a);
    let y = version_numbers(b);
    let z = version_numbers(c);
    lemma_numbers_trichotomy(x, y, 0);
    lemma_equal_not_above(x, y);
    lemma_numbers_trichotomy(x, z, 0);
    lemma_numbers_trichotomy(y, z, 0);
    lemma_above_or_equal_follow(x, y, z);
    lemma_above_or_equal_follow(y, x, z);
}

/// With the same numbers, two versions compare alike with any third.
proof fn lemma_above_or_equal_follow(x: Seq<u32>, y: Seq<u32>, z: Seq<u32>)
    requires
        numbers_equal(x, y),
        numbers_equal(y, x),
    ensures
        numbers_above(x, z) ==> numbers_above(y, z),
        numbers_equal(x, z) ==> numbers_equal(y, z),
        numbers_above(z, x) ==> numbers_above(z, y),
        numbers_equal(z, x) ==> numbers_equal(z, y),
{
    if numbers_above(x, z) || numbers_equal(x, z) {
        lemma_above_chains(y, x, z);
    }
    if numbers_above(z, x) || numbers_equal(z, x) {
        lemma_above_chains(z, x, y);
    }
}

proof fn lemma_numbers_trichotomy(a: Seq<u32>, b: Seq<u32>, i: int)
    requires
        0 <= i,
        same_upto(a, b, i),
    ensures
        numbers_above(a, b) || numbers_above(b, a) || numbers_equal(a, b),
    decreases a.len() + b.len() - i,
{
    if i >= a.len() && i >= b.len() {
        assert forall|j: int| 0 <= j implies #[trigger] number_at(a, j) == number_at(b, j) by {}
    } else if number_at(a, i) > number_at(b, i) {
        assert(numbers_above(a, b));
    } else if number_at(b, i) > number_at(a, i) {
        assert(same_upto(b, a, i)) by {
            assert forall|j: int| 0 <= j < i implies #[trigger] number_at(b, j) == number_at(
                a,
                j,
            ) by {
                assert(number_at(a, j) == number_at(b, j));
            }
        }
        assert(numbers_above(b, a));
    } else {
        lemma_numbers_trichotomy(a, b, i + 1);
    }
}

// ---------------------------------------------------------------------------
// The update check
// ---------------------------------------------------------------------------

/// What the update check tells the user.
pub enum UpdateAdvice {
    /// There is nothing to do but to tell.
    Tell(String),
    /// A newer version is there: the question to ask, and the command to run
    /// when the answer is yes.
    Offer { question: String, command: String },
}

/// The command that installs a version.
pub open spec fn update_command(latest: Seq<char>) -> Seq<char> {
    "npm install -g @deepseek-ai/dsh@"@ + latest
}

/// The question whether to update.
pub open spec fn update_question(current: Seq<char>, latest: Seq<char>) -> Seq<char> {
    "发现新版本 "@ + latest + "(当前 "@ + current
        + ")\n\n是否立即更新?\n(将执行: npm install -g @deepseek-ai/dsh@"@ + latest + ")"@
}

/// What the user is told where no update is offered.
pub open spec fn update_notice(current: Seq<char>, latest: Option<Seq<char>>) -> Option<Seq<char>> {
    match latest {
        None => Some("无法获取最新版本(网络不可达或 registry 失败)。"@),
        Some(l) => if crate::text::blank(current) {
            Some("无法获取当前 dsh 版本(请确认 dsh 命令可用)。"@)
        } else if !newer(l, current) {
            Some("已是最新版本: "@ + l)
        } else {
            None
        },
    }
}

/// Decides what to tell the user, from the installed and the latest version.
pub fn update_advice(current: &str, latest: &Option<String>) -> (out: UpdateAdvice)
    ensures
        match out {
            UpdateAdvice::Tell(message) => update_notice(
                current@,
                crate::text::opt_text(*latest),
            ) == Some(message@),
            UpdateAdvice::Offer { question, command } => {
                &&& update_notice(current@, crate::text::opt_text(*latest)) is None
                &&& latest matches Some(l) && command@ == update_command(l@) && question@
                    == update_question(current@, l@)
            },
        },
{
    match latest {
        None => UpdateAdvice::Tell("无法获取最新版本(网络不可达或 registry 失败)。".to_string()),
        Some(l) => {
            if is_blank(current) {
                return UpdateAdvice::Tell(
                    "无法获取当前 dsh 版本(请确认 dsh 命令可用)。".to_string(),
                );
            }
            match cmp_ver(l.as_str(), current) {
                Ordering::Greater => {
                    let mut question = cat3("发现新版本 ", l.as_str(), "(当前 ");
                    question.append(current);
                    question.append(
                        ")\n\n是否立即更新?\n(将执行: npm install -g @deepseek-ai/dsh@",
                    );
                    question.append(l.as_str());
                    question.append(")");
                    UpdateAdvice::Offer {
                        question,
                        command: cat("npm install -g @deepseek-ai/dsh@", l.as_str()),
                    }
                },
                _ => UpdateAdvice::Tell(cat("已是最新版本: ", l.as_str())),
            }
        },
    }
}

/// The message after an update was run.
pub fn update_result(ok: bool, command: &str) -> (out: String)
    ensures
        out@ == (if ok {
            "更新成功。请重启 DSH(dsh web)使新版本生效。"@
        } else {
            "更新失败。请手动执行:\n"@ + command@
        }),
{
    if ok {
        "更新成功。请重启 DSH(dsh web)使新版本生效。".to_string()
    } else {
        cat("更新失败。请手动执行:\n", command)
    }
}

// ---------------------------------------------------------------------------
// What the comparison guarantees
// ---------------------------------------------------------------------------

/// Whether some texts are decimal numerals of 32-bit numbers, at least one.
pub open spec fn are_numerals(numerals: Seq<Seq<char>>) -> bool {
    &&& numerals.len() > 0
    &&& forall|i: int| 0 <= i < numerals.len() ==> is_numeral(#[trigger] numerals[i])
}

/// Whether a text is a decimal numeral of a 32-bit number.
pub open spec fn is_numeral(s: Seq<char>) -> bool {
    &&& s.len() > 0
    &&& forall|k: int| 0 <= k < s.len() ==> '0' <= #[trigger] s[k] <= '9'
    &&& crate::text::digits_value(s) <= u32::MAX
}

/// Whether a text is what may stand behind the numbers of a version: nothing,
/// or a dash and anything.
pub open spec fn is_suffix(s: Seq<char>) -> bool {
    s.len() == 0 || s[0] == '-'
}

/// A version: numerals with dots between them, and a suffix.
pub open spec fn version_of(numerals: Seq<Seq<char>>, suffix: Seq<char>) -> Seq<char> {
    crate::text::join(numerals, "."@) + suffix
}

/// The value of the `i`-th numeral; zero behind the last.
pub open spec fn value_at(numerals: Seq<Seq<char>>, i: int) -> nat {
    if 0 <= i < numerals.len() {
        crate::text::digits_value(numerals[i])
    } else {
        0
    }
}

/// Numerals with dots between them hold digits and dots only, and a digit
/// first.
proof fn lemma_dotted(numerals: Seq<Seq<char>>)
    requires
        are_numerals(numerals),
    ensures
        ({
            let t = crate::text::join(numerals, "."@);
            &&& t.len() > 0
            &&& '0' <= t[0] <= '9'
            &&& forall|k: int| 0 <= k < t.len() ==> '0' <= #[trigger] t[k] <= '9' || t[k] == '.'
        }),
    decreases numerals.len(),
{
    reveal_strlit(".");
    let last = numerals.last();
    assert(is_numeral(last));
    if numerals.len() > 1 {
        let front = numerals.drop_last();
        assert forall|i: int| 0 <= i < front.len() implies is_numeral(#[trigger] front[i]) by {
            assert(front[i] == numerals[i]);
        }
        lemma_dotted(front);
        let t = crate::text::join(numerals, "."@);
        let u = crate::text::join(front, "."@);
        assert(t =~= u + "."@ + last);
        assert forall|k: int| 0 <= k < t.len() implies '0' <= #[trigger] t[k] <= '9' || t[k] == '.' by {
            if k < u.len() {
                assert(t[k] == u[k]);
            } else if k > u.len() {
                assert(t[k] == last[k - u.len() - 1]);
            }
        }
        assert(t[0] == u[0]);
    } else {
        assert(is_numeral(numerals[0]));
    }
}

proof fn lemma_dash_at(base: Seq<char>, suffix: Seq<char>)
    requires
        forall|k: int| 0 <= k < base.len() ==> #[trigger] base[k] != '-',
        is_suffix(suffix),
    ensures
        version_base(base + suffix) == base,
        suffix.len() == 0 ==> crate::text::index_of(base + suffix, "-"@) is None,
        suffix.len() > 0 ==> crate::text::index_of(base + suffix, "-"@) == Some(base.len() as int),
        suffix.len() > 0 ==> version_suffix(base + suffix) == suffix.skip(1),
{
    reveal_strlit("-");
    let v = base + suffix;
    let dash = "-"@;
    crate::text::lemma_index_from(v, dash, 0);
    assert forall|j: int| 0 <= j < base.len() && j + 1 <= v.len() implies #[trigger] v.subrange(
        j,
        j + 1,
    ) != dash by {
        assert(v.subrange(j, j + 1)[0] == base[j]);
    }
    if suffix.len() > 0 {
        assert(v.subrange(base.len() as int, base.len() as int + 1) =~= dash);
        crate::text::law_a_search_finds_the_first_place(v, dash, 0, base.len() as int);
        assert(v.take(base.len() as int) =~= base);
        assert(v.skip(base.len() as int + 1) =~= suffix.skip(1));
    } else {
        assert(v =~= base);
        if crate::text::index_of(v, dash) is Some {
            let k = crate::text::index_of(v, dash)->0;
            assert(crate::text::occurs_at(v, dash, k));
            assert(v.subrange(k, k + 1) != dash);
        }
    }
}

/// The numbers of a version are the numbers between its dots, at every
/// position and with all their digits, whatever suffix follows.
pub proof fn law_every_number_of_a_version_counts(numerals: Seq<Seq<char>>, suffix: Seq<char>)
    requires
        are_numerals(numerals),
        is_suffix(suffix),
    ensures
        version_numbers(version_of(numerals, suffix)).len() == numerals.len(),
        forall|i: int|
            0 <= i < numerals.len() ==> #[trigger] version_numbers(version_of(numerals, suffix))[i]
                == value_at(numerals, i),
{
    reveal_strlit(".");
    let base = crate::text::join(numerals, "."@);
    lemma_dotted(numerals);
    lemma_dash_at(base, suffix);
    assert forall|i: int| 0 <= i < numerals.len() implies crate::text::is_free_of(
        #[trigger] numerals[i],
        "."@,
    ) by {
        let s = numerals[i];
        assert(is_numeral(s));
        assert forall|p: int| 0 <= p && p + 1 <= s.len() implies #[trigger] s.subrange(p, p + 1)
            != "."@ by {
            assert(s.subrange(p, p + 1)[0] == s[p]);
        }
    }
    crate::text::law_splitting_undoes_joining(numerals, "."@);
    assert forall|i: int| 0 <= i < numerals.len() implies #[trigger] version_numbers(
        version_of(numerals, suffix),
    )[i] == value_at(numerals, i) by {
        let s = numerals[i];
        assert(is_numeral(s));
        assert(s[0] != '+');
        assert(crate::text::all_digits(s));
    }
}

/// The first number in which two versions differ decides which is newer, and
/// the update to the newer one is offered, whatever their suffixes are. A
/// number that a version does not have counts as zero.
pub proof fn law_the_first_larger_number_decides(
    a: Seq<Seq<char>>,
    b: Seq<Seq<char>>,
    suffix_a: Seq<char>,
    suffix_b: Seq<char>,
    i: int,
)
    requires
        are_numerals(a),
        are_numerals(b),
        is_suffix(suffix_a),
        is_suffix(suffix_b),
        0 <= i,
        forall|j: int| 0 <= j < i ==> #[trigger] value_at(a, j) == value_at(b, j),
        value_at(a, i) > value_at(b, i),
    ensures
        newer(version_of(a, suffix_a), version_of(b, suffix_b)),
        !newer(version_of(b, suffix_b), version_of(a, suffix_a)),
        update_notice(version_of(b, suffix_b), Some(version_of(a, suffix_a))) is None,
        update_notice(version_of(a, suffix_a), Some(version_of(b, suffix_b))) == Some(
            "已是最新版本: "@ + version_of(b, suffix_b),
        ),
{
    let va = version_of(a, suffix_a);
    let vb = version_of(b, suffix_b);
    let x = version_numbers(va);
    let y = version_numbers(vb);
    law_every_number_of_a_version_counts(a, suffix_a);
    law_every_number_of_a_version_counts(b, suffix_b);
    assert forall|j: int| 0 <= j implies number_at(x, j) == value_at(a, j) && number_at(y, j)
        == value_at(b, j) by {}
    assert forall|j: int| 0 <= j < i implies #[trigger] number_at(x, j) == number_at(y, j) by {
        assert(value_at(a, j) == value_at(b, j));
    }
    assert(number_at(x, i) > number_at(y, i));
    assert(numbers_above(x, y));
    law_newer_is_a_strict_order(va, vb, va);
    lemma_version_not_blank(a, suffix_a);
    lemma_version_not_blank(b, suffix_b);
}

proof fn lemma_version_not_blank(numerals: Seq<Seq<char>>, suffix: Seq<char>)
    requires
        are_numerals(numerals),
    ensures
        !crate::text::blank(version_of(numerals, suffix)),
{
    lemma_dotted(numerals);
    let v = version_of(numerals, suffix);
    assert(v[0] == crate::text::join(numerals, "."@)[0]);
    crate::text::law_visible_characters_are_no_whitespace(v[0]);
    crate::text::lemma_skip_white(v, 0);
    assert(crate::text::skip_white(v, 0) == 0);
    assert(v.skip(0) =~= v);
    crate::text::lemma_back_white(v, v.len() as int);
    if crate::text::back_white(v, v.len() as int) == 0 {
        assert(crate::text::is_white(v[0]));
    }
}

/// Zeros behind the last number change nothing, and a version is not newer
/// than itself: no update is offered from one to the other.
pub proof fn law_trailing_zeros_do_not_count(numerals: Seq<Seq<char>>, zero: Seq<char>)
    requires
        are_numerals(numerals),
        is_numeral(zero),
        crate::text::digits_value(zero) == 0,
    ensures
        ({
            let short = version_of(numerals, Seq::empty());
            let long = version_of(numerals.push(zero), Seq::empty());
            &&& !newer(short, long)
            &&& !newer(long, short)
            &&& update_notice(short, Some(long)) == Some("已是最新版本: "@ + long)
        }),
{
    let more = numerals.push(zero);
    assert forall|i: int| 0 <= i < more.len() implies is_numeral(#[trigger] more[i]) by {
        if i < numerals.len() {
            assert(more[i] == numerals[i]);
        }
    }
    let none = Seq::<char>::empty();
    law_every_number_of_a_version_counts(numerals, none);
    law_every_number_of_a_version_counts(more, none);
    let x = version_numbers(version_of(numerals, none));
    let y = version_numbers(version_of(more, none));
    assert forall|j: int| 0 <= j implies #[trigger] number_at(x, j) == number_at(y, j) by {
        if j < numerals.len() {
            assert(x[j] == value_at(numerals, j));
            assert(y[j] == value_at(more, j));
        } else if j == numerals.len() {
            assert(y[j] == value_at(more, j));
        }
    }
    lemma_equal_not_above(x, y);
    lemma_equal_not_above(y, x);
    lemma_dotted(numerals);
    lemma_dotted(more);
    lemma_dash_at(crate::text::join(numerals, "."@), none);
    lemma_dash_at(crate::text::join(more, "."@), none);
    lemma_version_not_blank(numerals, none);
    lemma_version_not_blank(more, none);
}

/// Every part between the dots counts as the number that it is, and as zero
/// where it is none, whatever suffix follows.
pub proof fn law_every_part_of_a_version_counts(parts: Seq<Seq<char>>, suffix: Seq<char>)
    requires
        parts.len() > 0,
        forall|i: int|
            0 <= i < parts.len() ==> !(#[trigger] parts[i]).contains('.') && !parts[i].contains('-'),
        is_suffix(suffix),
    ensures
        version_numbers(version_of(parts, suffix)).len() == parts.len(),
        forall|i: int|
            0 <= i < parts.len() ==> #[trigger] version_numbers(version_of(parts, suffix))[i] == (
            match crate::text::parse_u32(parts[i]) {
                Some(n) => n,
                None => 0,
            }),
{
    reveal_strlit(".");
    let base = crate::text::join(parts, "."@);
    lemma_no_dash(parts);
    lemma_dash_at(base, suffix);
    assert forall|i: int| 0 <= i < parts.len() implies crate::text::is_free_of(
        #[trigger] parts[i],
        "."@,
    ) by {
        let s = parts[i];
        assert forall|p: int| 0 <= p && p + 1 <= s.len() implies #[trigger] s.subrange(p, p + 1)
            != "."@ by {
            assert(s.subrange(p, p + 1)[0] == s[p]);
            assert(s.contains(s[p]));
        }
    }
    crate::text::law_splitting_undoes_joining(parts, "."@);
}

proof fn lemma_no_dash(parts: Seq<Seq<char>>)
    requires
        parts.len() > 0,
        forall|i: int| 0 <= i < parts.len() ==> !(#[trigger] parts[i]).contains('-'),
    ensures
        forall|k: int|
            0 <= k < crate::text::join(parts, "."@).len() ==> #[trigger] crate::text::join(
                parts,
                "."@,
            )[k] != '-',
    decreases parts.len(),
{
    reveal_strlit(".");
    let t = crate::text::join(parts, "."@);
    let last = parts.last();
    assert(!last.contains('-'));
    if parts.len() > 1 {
        let front = parts.drop_last();
        assert forall|i: int| 0 <= i < front.len() implies !(#[trigger] front[i]).contains('-') by {
            assert(front[i] == parts[i]);
        }
        lemma_no_dash(front);
        let u = crate::text::join(front, "."@);
        assert forall|k: int| 0 <= k < t.len() implies #[trigger] t[k] != '-' by {
            if k < u.len() {
                assert(t[k] == u[k]);
            } else if k > u.len() {
                assert(t[k] == last[k - u.len() - 1]);
                assert(last.contains(last[k - u.len() - 1]));
            }
        }
    } else {
        assert forall|k: int| 0 <= k < t.len() implies #[trigger] t[k] != '-' by {
            assert(last.contains(last[k]));
        }
    }
}

/// The suffix of a candidate: `-rc`, perhaps a dot, and its number, perhaps
/// with whitespace round these.
pub open spec fn candidate_suffix(
    left: Seq<char>,
    dotted: bool,
    number: u32,
    right: Seq<char>,
) -> Seq<char> {
    "-rc"@ + left + (if dotted {
        seq!['.']
    } else {
        Seq::empty()
    }) + crate::text::decimal(number as nat) + right
}

/// Whether a text is made of whitespace.
pub open spec fn is_gap_text(s: Seq<char>) -> bool {
    forall|k: int| 0 <= k < s.len() ==> crate::text::is_white(#[trigger] s[k])
}

/// Between versions with the same numbers, a release is newer than whatever
/// has a suffix, and a candidate goes by its number, with a dot before it or
/// without one, and with whitespace round it or without.
pub proof fn law_candidates_go_by_their_number(
    numerals: Seq<Seq<char>>,
    m: u32,
    n: u32,
    m_dotted: bool,
    n_dotted: bool,
    m_left: Seq<char>,
    m_right: Seq<char>,
    other: Seq<char>,
)
    requires
        are_numerals(numerals),
        is_gap_text(m_left),
        is_gap_text(m_right),
    ensures
        ({
            let base = crate::text::join(numerals, "."@);
            let none = Seq::<char>::empty();
            let a = base + candidate_suffix(m_left, m_dotted, m, m_right);
            let b = base + candidate_suffix(none, n_dotted, n, none);
            &&& newer(a, b) <==> m > n
            &&& newer(b, a) <==> n > m
            &&& newer(base, a)
            &&& !newer(a, base)
            &&& newer(base, base + "-"@ + other)
            &&& !newer(base + "-"@ + other, base)
        }),
{
    let base = crate::text::join(numerals, "."@);
    lemma_dotted(numerals);
    let none = Seq::<char>::empty();
    let a = base + candidate_suffix(m_left, m_dotted, m, m_right);
    let b = base + candidate_suffix(none, n_dotted, n, none);
    lemma_candidate_rank(base, m_left, m_dotted, m, m_right);
    lemma_candidate_rank(base, none, n_dotted, n, none);
    lemma_dash_at(base, none);
    assert(base + none =~= base);
    reveal_strlit("-");
    let c = base + "-"@ + other;
    assert(c =~= base + ("-"@ + other));
    lemma_dash_at(base, "-"@ + other);
    let x = version_numbers(base);
    assert(version_numbers(a) == x && version_numbers(b) == x && version_numbers(c) == x);
    assert(numbers_equal(x, x));
    lemma_equal_not_above(x, x);
}

proof fn lemma_candidate_rank(
    base: Seq<char>,
    left: Seq<char>,
    dotted: bool,
    m: u32,
    right: Seq<char>,
)
    requires
        forall|k: int| 0 <= k < base.len() ==> '0' <= #[trigger] base[k] <= '9' || base[k] == '.',
        is_gap_text(left),
        is_gap_text(right),
    ensures
        ({
            let v = base + candidate_suffix(left, dotted, m, right);
            version_base(v) == base && version_rank(v) == m && crate::text::index_of(v, "-"@)
                is Some
        }),
{
    reveal_strlit("-rc");
    reveal_strlit("rc");
    reveal_strlit(".");
    let number = crate::text::decimal(m as nat);
    crate::text::law_numerals_read_back(m as nat);
    let suffix = candidate_suffix(left, dotted, m, right);
    lemma_dash_at(base, suffix);
    let s = suffix.skip(1);
    assert(s.subrange(0, 2) =~= "rc"@);
    let rest = s.skip(2);
    let core = if dotted {
        seq!['.'] + number
    } else {
        number
    };
    assert(rest =~= left + core + right);
    crate::text::law_visible_characters_are_no_whitespace(core[0]);
    crate::text::law_visible_characters_are_no_whitespace(core.last());
    crate::text::law_trimming_takes_off_the_whitespace(left, core, right);
    if dotted {
        assert(core.subrange(0, 1) =~= "."@);
        assert(core.skip(1) =~= number);
    } else {
        assert(core.subrange(0, 1)[0] == number[0]);
    }
    assert(candidate_number(rest) == number);
}

/// Any other suffix ranks lowest: no candidate with a number is older, and two
/// such suffixes are even.
pub proof fn law_other_suffixes_rank_lowest(
    numerals: Seq<Seq<char>>,
    a: Seq<char>,
    b: Seq<char>,
    dotted: bool,
    n: u32,
)
    requires
        are_numerals(numerals),
        a.len() < 2 || a.take(2) != "rc"@,
        b.len() < 2 || b.take(2) != "rc"@,
    ensures
        ({
            let base = crate::text::join(numerals, "."@);
            let none = Seq::<char>::empty();
            let candidate = base + candidate_suffix(none, dotted, n, none);
            &&& !newer(base + (seq!['-'] + a), base + (seq!['-'] + b))
            &&& !newer(base + (seq!['-'] + a), candidate)
            &&& newer(candidate, base + (seq!['-'] + a)) <==> n > 0
        }),
{
    reveal_strlit("rc");
    let base = crate::text::join(numerals, "."@);
    let none = Seq::<char>::empty();
    lemma_dotted(numerals);
    lemma_candidate_rank(base, none, dotted, n, none);
    let sa = seq!['-'] + a;
    let sb = seq!['-'] + b;
    lemma_dash_at(base, sa);
    lemma_dash_at(base, sb);
    assert(sa.skip(1) =~= a);
    assert(sb.skip(1) =~= b);
    if a.len() >= 2 {
        assert(a.subrange(0, 2) =~= a.take(2));
    }
    if b.len() >= 2 {
        assert(b.subrange(0, 2) =~= b.take(2));
    }
    assert(version_rank(base + sa) == 0);
    assert(version_rank(base + sb) == 0);
    let x = version_numbers(base + sa);
    assert(version_numbers(base + sb) == x);
    assert(version_numbers(base + candidate_suffix(none, dotted, n, none)) == x);
    assert(numbers_equal(x, x));
    lemma_equal_not_above(x, x);
}

/// The faster registry is one that answered, and none that answered was
/// faster. There is one as soon as one answered.
pub proof fn law_the_fastest_registry_answered_first(npmjs: Option<u64>, mirror: Option<u64>)
    ensures
        fastest_registry(npmjs, mirror) is None <==> npmjs is None && mirror is None,
        fastest_registry(npmjs, mirror) == Some("npmjs"@) ==> (npmjs matches Some(a) && (
        mirror matches Some(b) ==> a <= b)),
        fastest_registry(npmjs, mirror) == Some("npmmirror"@) ==> (mirror matches Some(b) && (
        npmjs matches Some(a) ==> b < a)),
        fastest_registry(npmjs, mirror) matches Some(name) ==> name == "npmjs"@ || name
            == "npmmirror"@,
{
    reveal_strlit("npmjs");
    reveal_strlit("npmmirror");
    assert("npmjs"@.len() != "npmmirror"@.len());
}

/// DSH is started anew after an installation exactly where the command ran and
/// succeeded. The message of a failure names the exit code, or `-1` where
/// there is none, and the one of a command that did not run names the error.
pub proof fn law_a_failed_installation_is_told(
    success: bool,
    code: Option<i32>,
    error: String,
    local_app_data: Seq<char>,
)
    ensures
        install_trouble(InstallOutcome::Ran { success, code }, local_app_data) is None <==> success,
        !success ==> (install_trouble(
            InstallOutcome::Ran { success, code },
            local_app_data,
        ) matches Some(message) && crate::text::contains(message, local_app_data)
            && crate::text::contains(
            message,
            crate::text::signed_decimal(
                match code {
                    Some(c) => c as int,
                    None => -1,
                },
            ),
        )),
        install_trouble(InstallOutcome::NotRun { error }, local_app_data) matches Some(message)
            && crate::text::ends_with(message, error@),
{
    let number = crate::text::signed_decimal(
        match code {
            Some(c) => c as int,
            None => -1,
        },
    );
    let head = "npm 全局安装失败(退出码 "@;
    let middle = ")。详见日志 "@;
    let tail = "\\dsh.log,或改用「下载并启动(npx)」/手动路径。"@;
    let message = failed_message(code, local_app_data);
    assert(message =~= head + number + (middle + local_app_data + tail));
    assert(message =~= (head + number + middle) + local_app_data + tail);
    crate::text::law_containing_is_being_cut_around(message, number);
    crate::text::law_containing_is_being_cut_around(message, local_app_data);
    crate::text::law_containing_is_being_cut_around(not_run_message(error@), error@);
}

/// An update is offered only where both versions are known; without the newest
/// one, or without the installed one, the user is told so.
pub proof fn law_an_update_needs_both_versions(current: Seq<char>, latest: Seq<char>)
    ensures
        update_notice(current, None) is Some,
        crate::text::blank(current) ==> update_notice(current, Some(latest)) is Some,
        update_notice(current, None) != update_notice(Seq::empty(), Some(latest)),
        update_notice(latest, Some(latest)) is Some,
        crate::text::ends_with(update_command(latest), "dsh@"@ + latest),
{
    reveal_strlit("无法获取最新版本(网络不可达或 registry 失败)。");
    reveal_strlit("无法获取当前 dsh 版本(请确认 dsh 命令可用)。");
    reveal_strlit("npm install -g @deepseek-ai/dsh@");
    reveal_strlit("dsh@");
    let none = Seq::<char>::empty();
    crate::text::law_trimming_takes_off_the_whitespace(none, none, none);
    assert(none + none + none =~= none);
    assert("无法获取最新版本(网络不可达或 registry 失败)。"@[2] == '获');
    assert("无法获取最新版本(网络不可达或 registry 失败)。"@[4] == '最');
    assert("无法获取当前 dsh 版本(请确认 dsh 命令可用)。"@[4] == '当');
    law_newer_is_a_strict_order(latest, latest, latest);
    let call = update_command(latest);
    let front = "npm install -g @deepseek-ai/"@;
    reveal_strlit("npm install -g @deepseek-ai/");
    assert(call =~= front + ("dsh@"@ + latest));
    crate::text::law_containing_is_being_cut_around(call, "dsh@"@ + latest);
}

/// The version of a package is the text that its metadata has under `version`.
pub proof fn law_the_version_is_read_from_its_member(
    metadata: Map<Seq<char>, JsonView>,
    version: Seq<char>,
)
    ensures
        version_in(Some(JsonView::Obj(metadata))) == Some(version) <==> metadata.dom().contains(
            "version"@,
        ) && metadata["version"@] == JsonView::Str(version),
        version_in(None) is None,
        answer_version(None) is None,
{
}

/// The user sees both versions and the very command that is run on a yes.
pub proof fn law_the_question_shows_what_is_run(current: Seq<char>, latest: Seq<char>)
    ensures
        crate::text::contains(update_question(current, latest), current),
        crate::text::contains(update_question(current, latest), latest),
        crate::text::contains(update_question(current, latest), update_command(latest)),
        update_command(latest) == "npm install -g @deepseek-ai/dsh@"@ + latest,
{
    reveal_strlit(")\n\n是否立即更新?\n(将执行: npm install -g @deepseek-ai/dsh@");
    reveal_strlit(")\n\n是否立即更新?\n(将执行: ");
    reveal_strlit("npm install -g @deepseek-ai/dsh@");
    let q = update_question(current, latest);
    let a = "发现新版本 "@;
    let b = "(当前 "@;
    let c = ")\n\n是否立即更新?\n(将执行: npm install -g @deepseek-ai/dsh@"@;
    let d = ")\n\n是否立即更新?\n(将执行: "@;
    let e = ")"@;
    let call = update_command(latest);
    assert(q =~= a + latest + (b + current + c + latest + e));
    assert(q =~= (a + latest + b) + current + (c + latest + e));
    assert(c + latest =~= d + call);
    assert(q =~= (a + latest + b + current) + (c + latest) + e);
    assert(q =~= (a + latest + b + current + d) + call + e);
    crate::text::law_containing_is_being_cut_around(q, latest);
    crate::text::law_containing_is_being_cut_around(q, current);
    crate::text::law_containing_is_being_cut_around(q, call);
}

/// A known registry that is asked for is used: the command ends with its
/// address. Any other leaves npm to its own default. The label tells them
/// apart.
pub proof fn law_a_known_registry_is_used(other: Seq<char>)
    requires
        other != "https://registry.npmjs.org"@,
        other != "https://registry.npmmirror.com"@,
    ensures
        install_command(allowed_registry(Some("https://registry.npmjs.org"@)))
            == "npm install -g @deepseek-ai/dsh --registry=https://registry.npmjs.org"@,
        install_command(allowed_registry(Some("https://registry.npmmirror.com"@)))
            == "npm install -g @deepseek-ai/dsh --registry=https://registry.npmmirror.com"@,
        install_command(allowed_registry(Some(other))) == "npm install -g @deepseek-ai/dsh"@,
        install_command(allowed_registry(None)) == "npm install -g @deepseek-ai/dsh"@,
        install_label(allowed_registry(Some("https://registry.npmjs.org"@))) != install_label(
            allowed_registry(Some("https://registry.npmmirror.com"@)),
        ),
        install_label(allowed_registry(None)) == install_label(allowed_registry(Some(other))),
{
    reveal_strlit("npm install -g @deepseek-ai/dsh --registry=");
    reveal_strlit("https://registry.npmjs.org");
    reveal_strlit("https://registry.npmmirror.com");
    reveal_strlit("npm install -g @deepseek-ai/dsh --registry=https://registry.npmjs.org");
    reveal_strlit("npm install -g @deepseek-ai/dsh --registry=https://registry.npmmirror.com");
    reveal_strlit("npm 全局安装中(国内镜像,约 1-3 分钟)");
    reveal_strlit("npm 全局安装中(官方源,约 1-3 分钟)");
    assert("https://registry.npmjs.org"@.len() == 26);
    assert("https://registry.npmmirror.com"@.len() == 30);
    assert(install_command(Some("https://registry.npmjs.org"@))
        =~= "npm install -g @deepseek-ai/dsh --registry=https://registry.npmjs.org"@);
    assert(install_command(Some("https://registry.npmmirror.com"@))
        =~= "npm install -g @deepseek-ai/dsh --registry=https://registry.npmmirror.com"@);
    assert("npm 全局安装中(国内镜像,约 1-3 分钟)"@[10] != "npm 全局安装中(官方源,约 1-3 分钟)"@[10]);
}

} // verus!
