//! The shell's surroundings: its directories, the report for the environment
//! panel, and the decisions of its window.

use vstd::prelude::*;

use crate::json::{Json, JsonView};
use crate::launch::unless_blank;
use crate::logs::log_tail;
use crate::npm::read_version;
use crate::settings::{prefer_npx, saved_dsh_path};
use crate::text::{chars_of, str_eq, str_starts_with, string_from};

verus! {

// ---------------------------------------------------------------------------
// Directories
// ---------------------------------------------------------------------------

/// A path as a root and the names below it.
pub struct PathPlan {
    pub root: String,
    pub parts: Vec<String>,
}

/// The meaning of a path.
#[verifier::ext_equal]
pub struct PathView {
    pub root: Seq<char>,
    pub parts: Seq<Seq<char>>,
}

impl PathPlan {
    /// The meaning of the path.
    pub open spec fn view(&self) -> PathView {
        PathView { root: self.root@, parts: crate::text::strings(self.parts@) }
    }

    /// A path without names below its root.
    fn bare(root: &str) -> (out: PathPlan)
        ensures
            out@ == (PathView { root: root@, parts: Seq::empty() }),
    {
        let out = PathPlan { root: root.to_string(), parts: Vec::new() };
        assert(out@ =~= (PathView { root: root@, parts: Seq::empty() }));
        out
    }

    /// The path with one more name.
    pub fn join(self, part: &str) -> (out: PathPlan)
        ensures
            out@ == (PathView { root: self@.root, parts: self@.parts.push(part@) }),
    {
        let mut out = self;
        out.parts.push(part.to_string());
        assert(crate::text::strings(out.parts@) =~= self@.parts.push(part@));
        out
    }
}

/// The directory of all that the shell keeps: the one that the user names,
/// else `dsh-shell-data` beside the program, else below `LOCALAPPDATA`.
pub open spec fn data_dir(
    named: Option<Seq<char>>,
    exe_dir: Option<Seq<char>>,
    local_app_data: Option<Seq<char>>,
) -> PathView {
    match crate::launch::not_blank(named) {
        Some(dir) => PathView { root: dir, parts: Seq::empty() },
        None => PathView {
            root: match (exe_dir, local_app_data) {
                (Some(dir), _) => dir,
                (None, Some(dir)) => dir,
                (None, None) => "."@,
            },
            parts: seq!["dsh-shell-data"@],
        },
    }
}

/// The directory of all that the shell keeps.
pub fn shell_data_dir(
    named: &Option<String>,
    exe_dir: &Option<String>,
    local_app_data: &Option<String>,
) -> (out: PathPlan)
    ensures
        out@ == data_dir(
            crate::text::opt_text(*named),
            crate::text::opt_text(*exe_dir),
            crate::text::opt_text(*local_app_data),
        ),
{
    match unless_blank(named) {
        Some(dir) => PathPlan::bare(dir.as_str()),
        None => {
            let root = match exe_dir {
                Some(dir) => dir.as_str(),
                None => match local_app_data {
                    Some(dir) => dir.as_str(),
                    None => ".",
                },
            };
            let out = PathPlan::bare(root).join("dsh-shell-data");
            assert(out@.parts =~= seq!["dsh-shell-data"@]);
            out
        },
    }
}

/// The directory of DSH's own configuration: `DSH_HOME`, else `.dsh` in the
/// user's profile.
pub open spec fn home_dir(named: Option<Seq<char>>, profile: Option<Seq<char>>) -> PathView {
    match crate::launch::not_blank(named) {
        Some(dir) => PathView { root: dir, parts: Seq::empty() },
        None => match profile {
            Some(home) => PathView { root: home, parts: seq![".dsh"@] },
            None => PathView { root: ".dsh"@, parts: Seq::empty() },
        },
    }
}

/// The directory of DSH's own configuration.
pub fn dsh_home(named: &Option<String>, profile: &Option<String>) -> (out: PathPlan)
    ensures
        out@ == home_dir(crate::text::opt_text(*named), crate::text::opt_text(*profile)),
{
    match unless_blank(named) {
        Some(dir) => PathPlan::bare(dir.as_str()),
        None => match profile {
            Some(home) => {
                let out = PathPlan::bare(home.as_str()).join(".dsh");
                assert(out@.parts =~= seq![".dsh"@]);
                out
            },
            None => PathPlan::bare(".dsh"),
        },
    }
}

/// The directory of DSH's web profile.
pub fn web_profile(home: PathPlan) -> (out: PathPlan)
    ensures
        out@ == (PathView {
            root: home@.root,
            parts: home@.parts.push("profiles"@).push("web"@),
        }),
{
    home.join("profiles").join("web")
}

/// The manifest of a package of DSH's web profile.
pub fn manifest_path(home: PathPlan, package: &str) -> (out: PathPlan)
    ensures
        out@ == (PathView {
            root: home@.root,
            parts: home@.parts.push("profiles"@).push("web"@).push("node_modules"@).push(
                package@,
            ).push("package.json"@),
        }),
{
    web_profile(home).join("node_modules").join(package).join("package.json")
}

// ---------------------------------------------------------------------------
// The size of a directory
// ---------------------------------------------------------------------------

/// The most files that are counted.
pub const TALLY_CAP: u32 = 50_000;

/// A count of files and their bytes.
pub struct Tally {
    seen: u32,
    total: u64,
}

impl Tally {
    /// The files that were counted.
    pub closed spec fn seen(&self) -> u32 {
        self.seen
    }

    /// Their bytes.
    pub closed spec fn total(&self) -> u64 {
        self.total
    }

    #[verifier::type_invariant]
    spec fn bounded(&self) -> bool {
        self.seen <= TALLY_CAP
    }

    /// Nothing was counted yet.
    pub fn new() -> (out: Tally)
        ensures
            out.seen() == 0,
            out.total() == 0,
    {
        Tally { seen: 0, total: 0 }
    }

    /// Whether as many files were counted as may be.
    pub fn is_full(&self) -> (yes: bool)
        ensures
            yes == (self.seen() == TALLY_CAP),
    {
        proof {
            use_type_invariant(self);
        }
        self.seen >= TALLY_CAP
    }

    /// Counts a file. A full count stays as it is; `None` where the bytes do
    /// not fit in 64 bits.
    pub fn count(self, bytes: u64) -> (out: Option<Tally>)
        ensures
            match out {
                Some(t) => if self.seen() == TALLY_CAP {
                    t == self
                } else {
                    t.seen() == self.seen() + 1 && t.total() == self.total() + bytes
                },
                None => self.seen() < TALLY_CAP && self.total() + bytes > u64::MAX,
            },
    {
        proof {
            use_type_invariant(&self);
        }
        if self.seen >= TALLY_CAP {
            return Some(self);
        }
        match self.total.checked_add(bytes) {
            Some(total) => Some(Tally { seen: self.seen + 1, total }),
            None => None,
        }
    }

    /// The bytes that were counted.
    pub fn bytes(&self) -> (n: u64)
        ensures
            n == self.total(),
    {
        self.total
    }
}

/// The bytes of the first `n` of some files.
pub open spec fn sum_of(sizes: Seq<u64>, n: nat) -> int
    decreases n,
{
    if n == 0 {
        0
    } else {
        sum_of(sizes, (n - 1) as nat) + sizes[n - 1]
    }
}

/// The bytes of a list of files: of all of them, or of the first fifty
/// thousand. `None` where they do not fit in 64 bits.
pub fn tally_sizes(sizes: &Vec<u64>) -> (out: Option<u64>)
    ensures
        ({
            let counted = if sizes@.len() < TALLY_CAP {
                sizes@.len()
            } else {
                TALLY_CAP as nat
            };
            match out {
                Some(n) => n == sum_of(sizes@, counted),
                None => sum_of(sizes@, counted) > u64::MAX,
            }
        }),
{
    let mut tally = Tally::new();
    let mut i: usize = 0;
    while i < sizes.len() && !tally.is_full()
        invariant
            i <= sizes@.len(),
            tally.seen() == i,
            tally.total() == sum_of(sizes@, i as nat),
        decreases sizes@.len() - i,
    {
        proof {
            use_type_invariant(&tally);
        }
        match tally.count(sizes[i]) {
            Some(t) => {
                tally = t;
            },
            None => {
                proof {
                    let counted = if sizes@.len() < TALLY_CAP {
                        sizes@.len()
                    } else {
                        TALLY_CAP as nat
                    };
                    lemma_sum_grows(sizes@, (i + 1) as nat, counted);
                }
                return None;
            },
        }
        i = i + 1;
    }
    proof {
        use_type_invariant(&tally);
    }
    Some(tally.bytes())
}

proof fn lemma_sum_grows(sizes: Seq<u64>, a: nat, b: nat)
    requires
        a <= b,
    ensures
        sum_of(sizes, a) <= sum_of(sizes, b),
    decreases b,
{
    if a < b {
        lemma_sum_grows(sizes, a, (b - 1) as nat);
    }
}

// ---------------------------------------------------------------------------
// The report for the environment panel
// ---------------------------------------------------------------------------

/// What was found out for the report. Whatever could not be found out is
/// missing.
pub struct EnvFacts {
    pub version: String,
    pub install_dir: Option<String>,
    pub answering: bool,
    /// Who owns the DSH port.
    pub owner: Option<Json>,
    pub dsh_cmd: Option<String>,
    pub dsh_cwd: Option<String>,
    /// Whether `DSH_CWD` is a directory.
    pub dsh_cwd_is_dir: bool,
    /// The shell's settings.
    pub settings: Json,
    pub where_dsh: Option<String>,
    /// The start script of a project-local installation, and its root.
    pub local_install: Option<(String, String)>,
    pub node_path: Option<String>,
    pub node_version: Option<String>,
    /// The manifest of the desktop plugin.
    pub desktop_manifest: Option<String>,
    /// The manifest of the market plugin.
    pub market_manifest: Option<String>,
    pub profile_dir: String,
    pub log_dir: Option<String>,
    pub user_profile: Option<String>,
    pub profile_size: Option<u64>,
    /// The text of the log.
    pub log: Option<String>,
}

/// The version in the text of a manifest.
pub open spec fn manifest_version(manifest: Option<Seq<char>>) -> JsonView {
    match manifest {
        Some(text) => crate::json::opt_str_view(
            crate::npm::version_in(crate::json::json_parse(text)),
        ),
        None => JsonView::Null,
    }
}

/// The versions of the plugins.
pub open spec fn plugins_view(desktop: Option<Seq<char>>, market: Option<Seq<char>>) -> JsonView {
    JsonView::Obj(
        map![
            "dshDesktopPlugin"@ => manifest_version(desktop),
            "dshmarket"@ => manifest_version(market),
        ],
    )
}

fn plugin_version(manifest: &Option<String>) -> (out: Json)
    ensures
        out@ == manifest_version(crate::text::opt_text(*manifest)),
{
    match manifest {
        Some(text) => Json::opt_str(&read_version(text.as_str())),
        None => Json::Null,
    }
}

/// The versions of the plugins, from the texts of their manifests.
pub fn profile_plugin_versions(desktop: &Option<String>, market: &Option<String>) -> (out: Json)
    ensures
        out@ == plugins_view(crate::text::opt_text(*desktop), crate::text::opt_text(*market)),
{
    Json::object().with("dshDesktopPlugin", plugin_version(desktop)).with(
        "dshmarket",
        plugin_version(market),
    )
}

/// Where DSH works: `DSH_CWD` where it is a directory, else the user's
/// profile.
pub open spec fn workspace(
    dsh_cwd: Option<Seq<char>>,
    is_dir: bool,
    profile: Option<Seq<char>>,
) -> Option<Seq<char>> {
    let dir = if dsh_cwd is Some && is_dir {
        dsh_cwd
    } else {
        profile
    };
    match dir {
        Some(d) if d.len() > 0 => Some(d),
        _ => None,
    }
}

/// Where DSH works.
pub fn workspace_dir(dsh_cwd: &Option<String>, is_dir: bool, profile: &Option<String>) -> (out:
    Option<String>)
    ensures
        crate::text::opt_text(out) == workspace(
            crate::text::opt_text(*dsh_cwd),
            is_dir,
            crate::text::opt_text(*profile),
        ),
{
    let dir = if is_dir && dsh_cwd.is_some() {
        dsh_cwd
    } else {
        profile
    };
    match dir {
        Some(d) => if chars_of(d.as_str()).len() > 0 {
            Some(d.clone())
        } else {
            None
        },
        None => None,
    }
}

/// The directory that is reported is the one in which DSH is started.
pub proof fn law_reported_workspace_is_where_dsh_runs(
    dsh_cwd: Option<Seq<char>>,
    is_dir: bool,
    profile: Option<Seq<char>>,
)
    ensures
        match workspace(dsh_cwd, is_dir, profile) {
            Some(dir) => dir == crate::launch::directory_choice(dsh_cwd, is_dir, profile),
            None => crate::launch::directory_choice(dsh_cwd, is_dir, profile).len() == 0
                || profile is None,
        },
{
}

/// What the report says of the program.
pub open spec fn app_view(f: EnvFacts) -> JsonView {
    JsonView::Obj(
        map![
            "version"@ => JsonView::Str(f.version@),
            "installDir"@ => crate::json::opt_str_view(crate::text::opt_text(f.install_dir)),
        ],
    )
}

/// What the report says of a project-local installation.
pub open spec fn local_view(local: Option<(String, String)>) -> JsonView {
    match local {
        Some((shim, root)) => JsonView::Obj(
            map!["shim"@ => JsonView::Str(shim@), "root"@ => JsonView::Str(root@)],
        ),
        None => JsonView::Null,
    }
}

/// What the report says of DSH.
pub open spec fn dsh_view(f: EnvFacts) -> JsonView {
    JsonView::Obj(
        map![
            "portAnswering"@ => JsonView::Bool(f.answering),
            "owner"@ => match f.owner {
                Some(j) => j@,
                None => JsonView::Null,
            },
            "dshCmd"@ => crate::json::opt_str_view(
                crate::launch::not_blank(crate::text::opt_text(f.dsh_cmd)),
            ),
            "dshCwd"@ => crate::json::opt_str_view(
                crate::launch::not_blank(crate::text::opt_text(f.dsh_cwd)),
            ),
            "customPath"@ => crate::json::opt_str_view(crate::settings::saved_path(f.settings@)),
            "whereDsh"@ => crate::json::opt_str_view(crate::text::opt_text(f.where_dsh)),
            "localInstall"@ => local_view(f.local_install),
            "preferNpx"@ => JsonView::Bool(crate::settings::prefers_npx(f.settings@)),
        ],
    )
}

/// What the report says of Node.js.
pub open spec fn node_view(f: EnvFacts) -> JsonView {
    JsonView::Obj(
        map![
            "path"@ => crate::json::opt_str_view(crate::text::opt_text(f.node_path)),
            "version"@ => crate::json::opt_str_view(crate::text::opt_text(f.node_version)),
        ],
    )
}

/// The lines of a text as JSON.
pub open spec fn lines_view(lines: Seq<Seq<char>>) -> JsonView {
    JsonView::Arr(lines.map_values(|s: Seq<char>| JsonView::Str(s)))
}

/// The lines of the log that the report shows.
pub open spec fn shown_lines(log: Option<Seq<char>>) -> Seq<Seq<char>> {
    match log {
        Some(text) => crate::console::last_n(crate::text::lines(text), 25),
        None => Seq::empty(),
    }
}

/// The report for the environment panel.
pub open spec fn report_view(f: EnvFacts) -> JsonView {
    JsonView::Obj(
        map![
            "app"@ => app_view(f),
            "dsh"@ => dsh_view(f),
            "node"@ => node_view(f),
            "plugins"@ => plugins_view(
                crate::text::opt_text(f.desktop_manifest),
                crate::text::opt_text(f.market_manifest),
            ),
            "profileDir"@ => JsonView::Str(f.profile_dir@),
            "logDir"@ => crate::json::opt_str_view(crate::text::opt_text(f.log_dir)),
            "workspaceDir"@ => crate::json::opt_str_view(
                workspace(
                    crate::text::opt_text(f.dsh_cwd),
                    f.dsh_cwd_is_dir,
                    crate::text::opt_text(f.user_profile),
                ),
            ),
            "cacheDir"@ => JsonView::Null,
            "profileSizeBytes"@ => crate::npm::opt_number(f.profile_size),
            "logTail"@ => lines_view(shown_lines(crate::text::opt_text(f.log))),
        ],
    )
}

fn lines_json(lines: Vec<String>) -> (out: Json)
    ensures
        out@ == lines_view(crate::text::strings(lines@)),
{
    let mut items: Vec<Json> = Vec::new();
    let mut i: usize = 0;
    while i < lines.len()
        invariant
            i <= lines@.len(),
            items@.len() == i,
            forall|k: int|
                0 <= k < i ==> (#[trigger] items@[k])@ == JsonView::Str(lines@[k]@),
        decreases lines@.len() - i,
    {
        items.push(Json::str(lines[i].as_str()));
        i = i + 1;
    }
    proof {
        crate::json::lemma_arr_view(items@);
        assert(crate::json::arr_view(items@) =~= crate::text::strings(lines@).map_values(
            |s: Seq<char>| JsonView::Str(s),
        ));
    }
    Json::Arr(items)
}

fn app_json(f: &EnvFacts) -> (out: Json)
    ensures
        out@ == app_view(*f),
{
    Json::object().with("version", Json::str(f.version.as_str())).with(
        "installDir",
        Json::opt_str(&f.install_dir),
    )
}

fn local_json(local: &Option<(String, String)>) -> (out: Json)
    ensures
        out@ == local_view(*local),
{
    match local {
        Some((shim, root)) => Json::object().with("shim", Json::str(shim.as_str())).with(
            "root",
            Json::str(root.as_str()),
        ),
        None => Json::Null,
    }
}

fn node_json(f: &EnvFacts) -> (out: Json)
    ensures
        out@ == node_view(*f),
{
    Json::object().with("path", Json::opt_str(&f.node_path)).with(
        "version",
        Json::opt_str(&f.node_version),
    )
}

/// The report for the environment panel. Each of its parts stands for itself:
/// what could not be found out is null.
pub fn env_info(f: EnvFacts) -> (out: Json)
    requires
        f.owner matches Some(j) ==> j@.nested(crate::json::max_depth()),
    ensures
        out@ == report_view(f),
        out@.nested(crate::json::WRITE_DEPTH as nat),
{
    let ghost facts = f;
    let log = match &f.log {
        Some(text) => log_tail(text.as_str(), 25),
        None => Vec::new(),
    };
    assert(crate::text::strings(log@) =~= shown_lines(crate::text::opt_text(facts.log)));
    let app = app_json(&f);
    let node = node_json(&f);
    let plugins = profile_plugin_versions(&f.desktop_manifest, &f.market_manifest);
    let workspace = workspace_dir(&f.dsh_cwd, f.dsh_cwd_is_dir, &f.user_profile);
    let owner = match f.owner {
        Some(j) => j,
        None => Json::Null,
    };
    let dsh = Json::object().with("portAnswering", Json::Bool(f.answering)).with(
        "owner",
        owner,
    ).with("dshCmd", Json::opt_str(&unless_blank(&f.dsh_cmd))).with(
        "dshCwd",
        Json::opt_str(&unless_blank(&f.dsh_cwd)),
    ).with("customPath", Json::opt_str(&saved_dsh_path(&f.settings))).with(
        "whereDsh",
        Json::opt_str(&f.where_dsh),
    ).with("localInstall", local_json(&f.local_install)).with(
        "preferNpx",
        Json::Bool(prefer_npx(&f.settings)),
    );
    assert(dsh@ == dsh_view(facts));
    let size = match f.profile_size {
        Some(n) => Json::UInt(n),
        None => Json::Null,
    };
    let out = Json::object().with("app", app).with("dsh", dsh).with("node", node).with(
        "plugins",
        plugins,
    ).with("profileDir", Json::str(f.profile_dir.as_str())).with(
        "logDir",
        Json::opt_str(&f.log_dir),
    ).with("workspaceDir", Json::opt_str(&workspace)).with("cacheDir", Json::Null).with(
        "profileSizeBytes",
        size,
    ).with("logTail", lines_json(log));
    assert(out@ == report_view(facts));
    proof {
        lemma_report_nested(facts);
    }
    out
}

/// Whether a value is neither an array nor an object.
pub open spec fn plain(j: JsonView) -> bool {
    !(j is Arr) && !(j is Obj)
}

proof fn lemma_flat_object(m: Map<Seq<char>, JsonView>, n: nat)
    requires
        forall|k: Seq<char>| #[trigger] m.dom().contains(k) ==> plain(m[k]),
        n > 0,
    ensures
        JsonView::Obj(m).nested(n),
{
    assert forall|k: Seq<char>| #[trigger] m.dom().contains(k) implies m[k].nested(
        (n - 1) as nat,
    ) by {
        assert(plain(m[k]));
    }
}

proof fn lemma_report_nested(f: EnvFacts)
    requires
        f.owner matches Some(j) ==> j@.nested(crate::json::max_depth()),
    ensures
        report_view(f).nested(crate::json::WRITE_DEPTH as nat),
{
    let n = (crate::json::WRITE_DEPTH - 1) as nat;
    lemma_flat_object(app_view(f)->Obj_0, n);
    lemma_flat_object(node_view(f)->Obj_0, n);
    lemma_flat_object(
        plugins_view(
            crate::text::opt_text(f.desktop_manifest),
            crate::text::opt_text(f.market_manifest),
        )->Obj_0,
        n,
    );
    let lines = shown_lines(crate::text::opt_text(f.log)).map_values(
        |s: Seq<char>| JsonView::Str(s),
    );
    assert forall|i: int| 0 <= i < lines.len() implies (#[trigger] lines[i]).nested(
        (n - 1) as nat,
    ) by {
        assert(plain(lines[i]));
    }
    assert(JsonView::Arr(lines).nested(n));
    let dsh = dsh_view(f)->Obj_0;
    assert forall|k: Seq<char>| #[trigger] dsh.dom().contains(k) implies dsh[k].nested(
        (n - 1) as nat,
    ) by {
        match f.owner {
            Some(j) => {
                crate::json::lemma_nested_deeper(
                    j@,
                    crate::json::max_depth(),
                    (n - 1) as nat,
                );
            },
            None => {},
        }
        match f.local_install {
            Some((shim, root)) => {
                lemma_flat_object(local_view(f.local_install)->Obj_0, (n - 1) as nat);
            },
            None => {},
        }
    }
    assert(dsh_view(f).nested(n));
    let m = report_view(f)->Obj_0;
    assert forall|k: Seq<char>| #[trigger] m.dom().contains(k) implies m[k].nested(n) by {}
}

// ---------------------------------------------------------------------------
// The window
// ---------------------------------------------------------------------------

/// What is done when a page has been loaded.
pub struct PageLoad {
    /// Whether the page may show that DSH demands a token.
    pub check_wall: bool,
    /// Whether it is the shell's own page, whose address is remembered.
    pub remember: bool,
    /// Whether it is told how things stand.
    pub announce: bool,
}

/// Whether a page is one of DSH.
pub open spec fn is_dsh_page(url: Seq<char>) -> bool {
    crate::text::starts_with(url, "http://127.0.0.1:3080"@)
}

/// Whether a page is an empty one, which hears nothing.
pub open spec fn is_empty_page(url: Seq<char>) -> bool {
    crate::text::starts_with(url, "about:"@)
}

/// What is done when a page has been loaded.
pub fn page_loaded(url: &str) -> (out: PageLoad)
    ensures
        out.check_wall == is_dsh_page(url@),
        out.announce == !is_empty_page(url@),
        out.remember == (out.announce && !out.check_wall),
{
    let own = str_starts_with(url, "http://127.0.0.1:3080");
    let announce = !str_starts_with(url, "about:");
    PageLoad { check_wall: own, remember: announce && !own, announce }
}

/// The entries of the tray menu.
#[derive(Clone, Copy, PartialEq, Eq, Structural, Debug)]
pub enum TrayEntry {
    Open,
    Restart,
    RestartApp,
    Env,
    CheckUpdate,
    Quit,
}

impl TrayEntry {
    /// The name of the entry.
    pub open spec fn id_text(self) -> Seq<char> {
        match self {
            TrayEntry::Open => "open"@,
            TrayEntry::Restart => "restart"@,
            TrayEntry::RestartApp => "restart-app"@,
            TrayEntry::Env => "env"@,
            TrayEntry::CheckUpdate => "check-update"@,
            TrayEntry::Quit => "quit"@,
        }
    }

    /// The name of the entry.
    pub fn id(self) -> (out: &'static str)
        ensures
            out@ == self.id_text(),
    {
        match self {
            TrayEntry::Open => "open",
            TrayEntry::Restart => "restart",
            TrayEntry::RestartApp => "restart-app",
            TrayEntry::Env => "env",
            TrayEntry::CheckUpdate => "check-update",
            TrayEntry::Quit => "quit",
        }
    }

    /// The words of the entry.
    pub fn label(self) -> (out: &'static str)
        ensures
            out@ == (match self {
                TrayEntry::Open => "打开主界面"@,
                TrayEntry::Restart => "重启 dsh web(后端)"@,
                TrayEntry::RestartApp => "前后端重启"@,
                TrayEntry::Env => "环境信息"@,
                TrayEntry::CheckUpdate => "检查更新(DSH)"@,
                TrayEntry::Quit => "退出壳(DSH 保持运行)"@,
            }),
    {
        match self {
            TrayEntry::Open => "打开主界面",
            TrayEntry::Restart => "重启 dsh web(后端)",
            TrayEntry::RestartApp => "前后端重启",
            TrayEntry::Env => "环境信息",
            TrayEntry::CheckUpdate => "检查更新(DSH)",
            TrayEntry::Quit => "退出壳(DSH 保持运行)",
        }
    }
}

proof fn lemma_tray_names_differ(a: TrayEntry, b: TrayEntry)
    requires
        a.id_text() == b.id_text(),
    ensures
        a == b,
{
    reveal_strlit("open");
    reveal_strlit("restart");
    reveal_strlit("restart-app");
    reveal_strlit("env");
    reveal_strlit("check-update");
    reveal_strlit("quit");
    assert("open"@.len() == 4);
    assert("restart"@.len() == 7);
    assert("restart-app"@.len() == 11);
    assert("env"@.len() == 3);
    assert("check-update"@.len() == 12);
    assert("quit"@.len() == 4);
    assert("open"@[0] == 'o');
    assert("quit"@[0] == 'q');
}

/// The entry that was picked from the tray menu, by its name.
pub fn tray_entry(id: &str) -> (out: Option<TrayEntry>)
    ensures
        match out {
            Some(e) => e.id_text() == id@,
            None => forall|e: TrayEntry| #[trigger] e.id_text() != id@,
        },
{
    if str_eq(id, "open") {
        Some(TrayEntry::Open)
    } else if str_eq(id, "restart") {
        Some(TrayEntry::Restart)
    } else if str_eq(id, "restart-app") {
        Some(TrayEntry::RestartApp)
    } else if str_eq(id, "env") {
        Some(TrayEntry::Env)
    } else if str_eq(id, "check-update") {
        Some(TrayEntry::CheckUpdate)
    } else if str_eq(id, "quit") {
        Some(TrayEntry::Quit)
    } else {
        None
    }
}

/// Every entry of the tray menu is found by its own name and no other.
pub proof fn law_tray_entries_are_told_apart(a: TrayEntry, b: TrayEntry)
    ensures
        a.id_text() == b.id_text() <==> a == b,
{
    if a.id_text() == b.id_text() {
        lemma_tray_names_differ(a, b);
    }
}

/// The answer of a message box when the user picks yes.
pub const ANSWER_YES: i32 = 6;

/// Whether the user picked yes in a message box. Closing the box is no yes.
pub fn said_yes(answer: i32) -> (yes: bool)
    ensures
        yes == (answer == ANSWER_YES),
{
    answer == ANSWER_YES
}

/// A path without the prefix that marks it as verbatim.
pub open spec fn plain_text(path: Seq<char>) -> Seq<char> {
    if crate::text::starts_with(path, "\\\\?\\"@) {
        path.skip("\\\\?\\"@.len() as int)
    } else {
        path
    }
}

/// A path without the prefix that marks it as verbatim.
pub fn plain_path(path: &str) -> (out: String)
    ensures
        out@ == plain_text(path@),
{
    let chars = chars_of(path);
    let prefix = chars_of("\\\\?\\");
    if str_starts_with(path, "\\\\?\\") {
        let out = string_from(chars.as_slice(), prefix.len(), chars.len());
        assert(out@ =~= plain_text(path@));
        out
    } else {
        path.to_string()
    }
}

/// Half of a number, rounded towards zero.
pub open spec fn half(n: int) -> int {
    if n >= 0 {
        n / 2
    } else {
        -((-n) / 2)
    }
}

/// Where a span of a given length starts that lies in the middle of another.
pub open spec fn middle(from: int, to: int, len: int) -> int {
    from + half((to - from) - len)
}

fn middle_start(from: i32, to: i32, len: i64) -> (out: i64)
    requires
        -0x1_0000_0000 <= len <= 0x1_0000_0000,
    ensures
        out == middle(from as int, to as int, len as int),
{
    let gap: i64 = (to as i64 - from as i64) - len;
    let mid: i64 = if gap >= 0 {
        gap / 2
    } else {
        -((-gap) / 2)
    };
    from as i64 + mid
}

/// A rectangle on the screen.
#[derive(Clone, Copy)]
pub struct Frame {
    pub left: i32,
    pub top: i32,
    pub right: i32,
    pub bottom: i32,
}

/// Where the upper left corner of a dialog goes so that it lies in the middle
/// of its owner. `None` where the owner has no extent, or where the corner is
/// not on any screen that 32 bits can tell.
pub fn centered(owner: Frame, dialog: Frame) -> (out: Option<(i32, i32)>)
    ensures
        ({
            let x = middle(owner.left as int, owner.right as int, dialog.right - dialog.left);
            let y = middle(owner.top as int, owner.bottom as int, dialog.bottom - dialog.top);
            let fits = i32::MIN <= x <= i32::MAX && i32::MIN <= y <= i32::MAX;
            if owner.right > owner.left && owner.bottom > owner.top && fits {
                out matches Some(corner) && corner.0 == x && corner.1 == y
            } else {
                out is None
            }
        }),
{
    if owner.right <= owner.left || owner.bottom <= owner.top {
        return None;
    }
    let x: i64 = middle_start(owner.left, owner.right, dialog.right as i64 - dialog.left as i64);
    let y: i64 = middle_start(owner.top, owner.bottom, dialog.bottom as i64 - dialog.top as i64);
    if x < i32::MIN as i64 || x > i32::MAX as i64 || y < i32::MIN as i64 || y > i32::MAX as i64 {
        return None;
    }
    Some((x as i32, y as i32))
}

// ---------------------------------------------------------------------------
// What the surroundings are
// ---------------------------------------------------------------------------

/// The directories are those that the user names, as they are; without such
/// names the shell keeps its data beside the program, or below the local data,
/// and DSH has its home in the user's profile.
pub proof fn law_named_directories_come_first(
    named: Seq<char>,
    exe_dir: Option<Seq<char>>,
    local_app_data: Option<Seq<char>>,
    profile: Option<Seq<char>>,
    k: int,
)
    requires
        0 <= k < named.len(),
        !crate::text::is_white(named[k]),
    ensures
        data_dir(Some(named), exe_dir, local_app_data) == (PathView {
            root: named,
            parts: Seq::empty(),
        }),
        home_dir(Some(named), profile) == (PathView { root: named, parts: Seq::empty() }),
        exe_dir matches Some(dir) ==> data_dir(None, exe_dir, local_app_data) == (PathView {
            root: dir,
            parts: seq!["dsh-shell-data"@],
        }),
        exe_dir is None ==> (local_app_data matches Some(dir) ==> data_dir(
            None,
            exe_dir,
            local_app_data,
        ) == (PathView { root: dir, parts: seq!["dsh-shell-data"@] })),
        profile matches Some(home) ==> home_dir(None, profile) == (PathView {
            root: home,
            parts: seq![".dsh"@],
        }),
{
    crate::launch::law_a_blank_variable_counts_as_unset(named);
}

/// The directory in which DSH works is the one that the user has set, where it
/// is one, else the profile. An empty name is none.
pub proof fn law_the_workspace_falls_back_to_the_profile(dir: Seq<char>, profile: Seq<char>)
    requires
        dir.len() > 0,
        profile.len() > 0,
    ensures
        workspace(Some(dir), true, Some(profile)) == Some(dir),
        workspace(Some(dir), false, Some(profile)) == Some(profile),
        workspace(None, true, Some(profile)) == Some(profile),
        workspace(None, true, None) is None,
        workspace(None, true, Some(Seq::empty())) is None,
{
}

/// The bytes of files add up: one more file adds its size.
pub proof fn law_sizes_add_up(sizes: Seq<u64>, more: u64)
    ensures
        sum_of(sizes.push(more), sizes.len() + 1) == sum_of(sizes, sizes.len()) + more,
        sum_of(sizes, 0) == 0,
{
    lemma_sum_prefix(sizes, more, sizes.len());
}

proof fn lemma_sum_prefix(sizes: Seq<u64>, more: u64, n: nat)
    requires
        n <= sizes.len(),
    ensures
        sum_of(sizes.push(more), n) == sum_of(sizes, n),
    decreases n,
{
    if n > 0 {
        lemma_sum_prefix(sizes, more, (n - 1) as nat);
        assert(sizes.push(more)[n - 1] == sizes[n - 1]);
    }
}

/// A verbatim path loses its prefix and nothing else; any other path stays.
pub proof fn law_only_the_prefix_goes(path: Seq<char>)
    ensures
        plain_text("\\\\?\\"@ + path) == path,
        path.len() < 4 || path.take(4) != "\\\\?\\"@ ==> plain_text(path) == path,
{
    reveal_strlit("\\\\?\\");
    let prefix = "\\\\?\\"@;
    let long = prefix + path;
    assert(long.subrange(0, 4) =~= prefix);
    assert(long.skip(4) =~= path);
    if path.len() >= 4 {
        assert(path.subrange(0, 4) =~= path.take(4));
    }
}

/// A dialog lies in the middle of its owner: the spaces on both sides differ
/// by one at most.
pub proof fn law_a_dialog_lies_in_the_middle(from: int, to: int, len: int)
    ensures
        ({
            let start = middle(from, to, len);
            let before = start - from;
            let behind = to - (start + len);
            &&& -1 <= before - behind <= 1
            &&& len <= to - from ==> 0 <= before <= behind
            &&& len >= to - from ==> behind <= before <= 0
        }),
{
}

/// The report for the environment panel says what was found out: what it says
/// of DSH, its settings and its log goes back to the facts.
pub proof fn law_the_report_says_what_was_found(f: EnvFacts)
    ensures
        ({
            let report = report_view(f);
            let dsh = report.get("dsh"@);
            &&& dsh matches Some(d) && {
                &&& d.get("portAnswering"@) == Some(JsonView::Bool(f.answering))
                &&& f.where_dsh matches Some(path) ==> crate::json::get_text(d, "whereDsh"@) == Some(
                    path@,
                )
                &&& f.where_dsh is None ==> d.get("whereDsh"@) == Some(JsonView::Null)
                &&& d.get("preferNpx"@) == Some(
                    JsonView::Bool(crate::settings::prefers_npx(f.settings@)),
                )
            }
            &&& dsh matches Some(d) && {
                &&& d.get("owner"@) == Some(
                    match f.owner {
                        Some(j) => j@,
                        None => JsonView::Null,
                    },
                )
                &&& crate::json::get_text(d, "customPath"@) == crate::settings::saved_path(
                    f.settings@,
                )
                &&& f.local_install matches Some((shim, root)) ==> (d.get("localInstall"@)
                    matches Some(l) && crate::json::get_text(l, "shim"@) == Some(shim@)
                    && crate::json::get_text(l, "root"@) == Some(root@))
                &&& f.local_install is None ==> d.get("localInstall"@) == Some(JsonView::Null)
                &&& crate::json::get_text(d, "dshCmd"@) == crate::launch::not_blank(
                    crate::text::opt_text(f.dsh_cmd),
                )
                &&& crate::json::get_text(d, "dshCwd"@) == crate::launch::not_blank(
                    crate::text::opt_text(f.dsh_cwd),
                )
            }
            &&& report.get("node"@) matches Some(n) && crate::json::get_text(n, "path"@)
                == crate::text::opt_text(f.node_path) && crate::json::get_text(n, "version"@)
                == crate::text::opt_text(f.node_version)
            &&& crate::json::get_text(report, "logDir"@) == crate::text::opt_text(f.log_dir)
            &&& report.get("cacheDir"@) == Some(JsonView::Null)
            &&& report.get("app"@) matches Some(a) && crate::json::get_text(a, "version"@) == Some(
                f.version@,
            ) && crate::json::get_text(a, "installDir"@) == crate::text::opt_text(f.install_dir)
            &&& crate::json::get_text(report, "profileDir"@) == Some(f.profile_dir@)
            &&& f.profile_size matches Some(n) ==> report.get("profileSizeBytes"@) == Some(
                JsonView::Integer(n as int),
            )
        }),
{
    lemma_report_keys();
}

proof fn lemma_report_keys()
    ensures
        "node"@ != "plugins"@,
        "node"@ != "profileDir"@,
        "node"@ != "logDir"@,
        "node"@ != "workspaceDir"@,
        "node"@ != "cacheDir"@,
        "node"@ != "profileSizeBytes"@,
        "node"@ != "logTail"@,
        "logDir"@ != "workspaceDir"@,
        "logDir"@ != "cacheDir"@,
        "logDir"@ != "profileSizeBytes"@,
        "logDir"@ != "logTail"@,
        "cacheDir"@ != "profileSizeBytes"@,
        "cacheDir"@ != "logTail"@,
        "owner"@ != "dshCmd"@,
        "owner"@ != "dshCwd"@,
        "owner"@ != "customPath"@,
        "owner"@ != "whereDsh"@,
        "owner"@ != "localInstall"@,
        "owner"@ != "preferNpx"@,
        "dshCmd"@ != "dshCwd"@,
        "dshCmd"@ != "customPath"@,
        "dshCmd"@ != "whereDsh"@,
        "dshCmd"@ != "localInstall"@,
        "dshCmd"@ != "preferNpx"@,
        "dshCwd"@ != "customPath"@,
        "dshCwd"@ != "whereDsh"@,
        "dshCwd"@ != "localInstall"@,
        "dshCwd"@ != "preferNpx"@,
        "customPath"@ != "whereDsh"@,
        "customPath"@ != "localInstall"@,
        "customPath"@ != "preferNpx"@,
        "localInstall"@ != "preferNpx"@,
        "shim"@ != "root"@,
        "path"@ != "version"@,
        "dsh"@ != "app"@,
        "dsh"@ != "node"@,
        "dsh"@ != "plugins"@,
        "dsh"@ != "profileDir"@,
        "dsh"@ != "logDir"@,
        "dsh"@ != "workspaceDir"@,
        "dsh"@ != "cacheDir"@,
        "dsh"@ != "profileSizeBytes"@,
        "dsh"@ != "logTail"@,
        "app"@ != "node"@,
        "app"@ != "plugins"@,
        "app"@ != "profileDir"@,
        "app"@ != "logDir"@,
        "app"@ != "workspaceDir"@,
        "app"@ != "cacheDir"@,
        "app"@ != "profileSizeBytes"@,
        "app"@ != "logTail"@,
        "profileDir"@ != "logDir"@,
        "profileDir"@ != "workspaceDir"@,
        "profileDir"@ != "cacheDir"@,
        "profileDir"@ != "profileSizeBytes"@,
        "profileDir"@ != "logTail"@,
        "profileSizeBytes"@ != "logTail"@,
        "portAnswering"@ != "owner"@,
        "portAnswering"@ != "dshCmd"@,
        "portAnswering"@ != "dshCwd"@,
        "portAnswering"@ != "customPath"@,
        "portAnswering"@ != "whereDsh"@,
        "portAnswering"@ != "localInstall"@,
        "portAnswering"@ != "preferNpx"@,
        "whereDsh"@ != "localInstall"@,
        "whereDsh"@ != "preferNpx"@,
        "version"@ != "installDir"@,
{
    reveal_strlit("dsh");
    reveal_strlit("app");
    reveal_strlit("node");
    reveal_strlit("plugins");
    reveal_strlit("profileDir");
    reveal_strlit("logDir");
    reveal_strlit("workspaceDir");
    reveal_strlit("cacheDir");
    reveal_strlit("profileSizeBytes");
    reveal_strlit("logTail");
    reveal_strlit("portAnswering");
    reveal_strlit("owner");
    reveal_strlit("dshCmd");
    reveal_strlit("dshCwd");
    reveal_strlit("customPath");
    reveal_strlit("whereDsh");
    reveal_strlit("localInstall");
    reveal_strlit("preferNpx");
    reveal_strlit("version");
    reveal_strlit("installDir");
    reveal_strlit("shim");
    reveal_strlit("root");
    reveal_strlit("path");
    assert("dsh"@[0] != "app"@[0]);
    assert("shim"@[0] != "root"@[0]);
    assert("dshCmd"@[4] != "dshCwd"@[4]);
    assert("path"@.len() == 4);
    assert("profileDir"@.len() == 10 && "whereDsh"@.len() == 8 && "portAnswering"@.len() == 13);
    assert("dsh"@.len() == 3 && "app"@.len() == 3 && "node"@.len() == 4 && "plugins"@.len() == 7);
    assert("logDir"@.len() == 6 && "workspaceDir"@.len() == 12 && "cacheDir"@.len() == 8);
    assert("profileSizeBytes"@.len() == 16 && "logTail"@.len() == 7);
    assert("owner"@.len() == 5 && "dshCmd"@.len() == 6 && "dshCwd"@.len() == 6);
    assert("customPath"@.len() == 10 && "localInstall"@.len() == 12 && "preferNpx"@.len() == 9);
    assert("version"@.len() == 7 && "installDir"@.len() == 10);
}

/// The pages of DSH are those under its address, and the empty ones those of
/// the scheme `about`, whatever follows.
pub proof fn law_pages_are_told_by_how_they_begin(url: Seq<char>, rest: Seq<char>)
    ensures
        is_dsh_page("http://127.0.0.1:3080"@ + rest),
        is_empty_page("about:"@ + rest),
        !is_empty_page("http://127.0.0.1:3080"@ + rest),
        url.len() < 21 || url.take(21) != "http://127.0.0.1:3080"@ ==> !is_dsh_page(url),
        url.len() < 6 || url.take(6) != "about:"@ ==> !is_empty_page(url),
{
    reveal_strlit("http://127.0.0.1:3080");
    reveal_strlit("about:");
    let dsh = "http://127.0.0.1:3080"@;
    let about = "about:"@;
    assert((dsh + rest).subrange(0, 21) =~= dsh);
    assert((about + rest).subrange(0, 6) =~= about);
    assert((dsh + rest).subrange(0, 6)[0] == 'h');
    if url.len() >= 21 {
        assert(url.subrange(0, 21) =~= url.take(21));
    }
    if url.len() >= 6 {
        assert(url.subrange(0, 6) =~= url.take(6));
    }
}

/// The report shows the last 25 lines of the log, or all where there are
/// fewer, and none where the log could not be read.
pub proof fn law_the_report_shows_the_end_of_the_log(f: EnvFacts, i: int)
    ensures
        report_view(f).get("logTail"@) matches Some(JsonView::Arr(shown)) && {
            let lines = crate::text::lines(f.log->0@);
            &&& f.log is None ==> shown.len() == 0
            &&& f.log is Some ==> shown.len() == (if lines.len() < 25 {
                lines.len()
            } else {
                25
            })
            &&& f.log is Some && 0 <= i < shown.len() ==> shown[i] == JsonView::Str(
                lines[lines.len() - shown.len() + i],
            )
        },
{
}

/// The plugins are reported with the versions that their manifests name.
pub proof fn law_plugins_are_reported_with_their_versions(
    desktop: Option<Seq<char>>,
    market: Option<Seq<char>>,
)
    ensures
        crate::json::get_text(plugins_view(desktop, market), "dshDesktopPlugin"@)
            == crate::npm::answer_version(desktop),
        crate::json::get_text(plugins_view(desktop, market), "dshmarket"@)
            == crate::npm::answer_version(market),
{
    reveal_strlit("dshDesktopPlugin");
    reveal_strlit("dshmarket");
    assert("dshDesktopPlugin"@.len() == 16 && "dshmarket"@.len() == 9);
}

} // verus!
