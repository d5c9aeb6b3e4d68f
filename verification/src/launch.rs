//! How DSH is found and started: local installations first, and a download
//! only with the user's consent.

use vstd::hash_map::StringHashMap;
use vstd::prelude::*;

use crate::json::Json;
use crate::logs::LogLevel;
use crate::text::{cat, cat3, chars_of, decimal_string, is_blank, split_lines, str_contains, str_eq, string_from, trim_string};

verus! {

/// The address of the DSH web server.
pub const DSH_BASE: &'static str = "http://127.0.0.1:3080";

/// The port of the DSH web server.
pub const DSH_PORT: u16 = 3080;

/// How long a command of the user's own may take to become ready, in seconds.
pub const DSH_CMD_WINDOW: u64 = 120;

/// How long an npx run may take: the first one downloads the package.
pub const NPX_FIRST_RUN_WINDOW: u64 = 300;

/// How long an installed DSH may take.
pub const GLOBAL_WINDOW: u64 = 30;

// ---------------------------------------------------------------------------
// What the system's tools print
// ---------------------------------------------------------------------------

/// The first of the lines of a text, without the white space round it, unless
/// nothing is left.
pub open spec fn first_line(output: Seq<char>) -> Option<Seq<char>> {
    let lines = crate::text::lines(output);
    if lines.len() > 0 && crate::text::trim(lines[0]).len() > 0 {
        Some(crate::text::trim(lines[0]))
    } else {
        None
    }
}

/// The first hit of `where`, from whether it succeeded and what it printed.
pub fn where_first(success: bool, output: &str) -> (out: Option<String>)
    ensures
        crate::text::opt_text(out) == (if success {
            first_line(output@)
        } else {
            None
        }),
{
    if !success {
        return None;
    }
    let chars = chars_of(output);
    let lines = split_lines(chars.as_slice());
    proof {
        assert(crate::text::texts(lines@) == crate::text::lines(output@));
    }
    if lines.len() == 0 {
        return None;
    }
    let line = string_from(lines[0].as_slice(), 0, lines[0].len());
    proof {
        assert(line@ =~= lines@[0]@);
        assert(crate::text::texts(lines@)[0] == lines@[0]@);
    }
    captured(line.as_str())
}

/// What a program printed, without the white space round it, unless nothing
/// is left.
pub open spec fn captured_text(output: Seq<char>) -> Option<Seq<char>> {
    if crate::text::trim(output).len() > 0 {
        Some(crate::text::trim(output))
    } else {
        None
    }
}

/// What a program printed, without the white space round it, unless nothing
/// is left.
pub fn captured(output: &str) -> (out: Option<String>)
    ensures
        crate::text::opt_text(out) == captured_text(output@),
{
    let trimmed = trim_string(output);
    if is_empty(trimmed.as_str()) {
        None
    } else {
        Some(trimmed)
    }
}

fn is_empty(s: &str) -> (b: bool)
    ensures
        b == (s@.len() == 0),
{
    chars_of(s).len() == 0
}

/// A variable of the environment, unless it is blank.
pub open spec fn not_blank(v: Option<Seq<char>>) -> Option<Seq<char>> {
    match v {
        Some(s) => if crate::text::blank(s) {
            None
        } else {
            Some(s)
        },
        None => None,
    }
}

/// A variable of the environment, unless it is blank.
pub fn unless_blank(v: &Option<String>) -> (out: Option<String>)
    ensures
        crate::text::opt_text(out) == not_blank(crate::text::opt_text(*v)),
{
    match v {
        Some(s) => if is_blank(s.as_str()) {
            None
        } else {
            Some(s.clone())
        },
        None => None,
    }
}

// ---------------------------------------------------------------------------
// Command lines
// ---------------------------------------------------------------------------

/// The arguments with which `cmd` runs a command and keeps its inner quotes.
pub open spec fn shell_arguments(cmd: Seq<char>) -> Seq<char> {
    "/S /C \""@ + cmd + "\""@
}

/// The arguments with which `cmd` runs a command: `/S` takes off the outer
/// pair of quotes and nothing else.
pub fn shell_line(cmd: &str) -> (out: String)
    ensures
        out@ == shell_arguments(cmd@),
{
    cat3("/S /C \"", cmd, "\"")
}

/// A program and what follows it, with quotes round the program.
pub open spec fn quoted_call(path: Seq<char>, rest: Seq<char>) -> Seq<char> {
    "\""@ + path + "\" "@ + rest
}

fn quoted(path: &str, rest: &str) -> (out: String)
    ensures
        out@ == quoted_call(path@, rest@),
{
    let mut out = cat3("\"", path, "\" ");
    out.append(rest);
    out
}

/// The command that prints the help of `dsh web`.
pub fn help_command(path: &str) -> (out: String)
    ensures
        out@ == quoted_call(path@, "web --help"@),
{
    quoted(path, "web --help")
}

/// The command of the helper that starts the shell again: it waits about three
/// seconds, so that this instance is gone by then.
pub fn relaunch_command(exe: &str) -> (out: String)
    ensures
        out@ == "ping -n 4 127.0.0.1 >nul & start \"\" \""@ + exe@ + "\""@,
{
    cat3("ping -n 4 127.0.0.1 >nul & start \"\" \"", exe, "\"")
}

/// What came of the attempt to start the shell again.
pub enum RestartEvent {
    /// The path of the program is not known: there is nothing to start.
    NoProgram,
    /// The helper that starts the shell again is under way.
    Armed,
    /// The helper could not be started.
    NotArmed { error: String },
}

/// What follows.
pub enum RestartStep {
    /// Something is logged, DSH is stopped and this instance ends.
    Leave { line: String },
    /// This instance stays, and something is logged where there was an error.
    Stay { line: Option<String> },
}

/// Decides whether a restart goes ahead. This instance ends only when the
/// helper is under way, so a restart that fails never turns into a quit.
pub fn restart_step(event: &RestartEvent) -> (out: RestartStep)
    ensures
        match *event {
            RestartEvent::NoProgram => out matches RestartStep::Stay { line } && line is None,
            RestartEvent::Armed => out matches RestartStep::Leave { line } && line@
                == "[dsh-desktop] relaunch helper armed (starts the new exe in ~3s)"@,
            RestartEvent::NotArmed { error } => out matches RestartStep::Stay { line: Some(l) }
                && l@ == "[dsh-desktop] relaunch helper failed ("@ + error@
                + "); the new version activates on next manual launch"@,
        },
{
    match event {
        RestartEvent::NoProgram => RestartStep::Stay { line: None },
        RestartEvent::Armed => RestartStep::Leave {
            line: "[dsh-desktop] relaunch helper armed (starts the new exe in ~3s)".to_string(),
        },
        RestartEvent::NotArmed { error } => RestartStep::Stay {
            line: Some(
                cat3(
                    "[dsh-desktop] relaunch helper failed (",
                    error.as_str(),
                    "); the new version activates on next manual launch",
                ),
            ),
        },
    }
}

/// The script that finds out who owns a process, before its number.
pub const OWNER_SCRIPT_HEAD: &'static str = "$p = Get-CimInstance Win32_Process -Filter 'ProcessId=";

/// The rest of the script. It walks up to five parents and looks for the
/// shell among them.
pub const OWNER_SCRIPT_TAIL: &'static str = "'; if ($null -eq $p) { exit 1 }; $names = @($p.Name); $cur = $p; $owned = $false; for ($i = 0; $i -lt 5 -and $null -ne $cur; $i++) { if ($cur.Name -eq 'dsh-desktop-windowos.exe') { $owned = $true; break }; $cur = Get-CimInstance Win32_Process -Filter ('ProcessId=' + $cur.ParentProcessId); if ($null -ne $cur) { $names += $cur.Name } }; [pscustomobject]@{ pid = $p.ProcessId; cmd = $p.CommandLine; chain = ($names -join ' <- '); owned = $owned } | ConvertTo-Json -Compress";

/// The script that tells who owns the DSH port: the process, its command line
/// and whether the shell is among its parents.
pub fn owner_script(pid: u32) -> (out: String)
    ensures
        out@ == OWNER_SCRIPT_HEAD@ + crate::text::decimal(pid as nat) + OWNER_SCRIPT_TAIL@,
{
    let number = decimal_string(pid as u64);
    cat3(OWNER_SCRIPT_HEAD, number.as_str(), OWNER_SCRIPT_TAIL)
}

/// What the script printed, as JSON.
pub fn port_owner(output: &Option<String>) -> (out: Option<Json>)
    ensures
        match out {
            Some(j) => output is Some && crate::json::json_parse(output->Some_0@) == Some(j@)
                && j@.nested(crate::json::max_depth()),
            None => output is None || crate::json::json_parse(output->Some_0@) is None,
        },
{
    match output {
        Some(text) => Json::parse(text.as_str()),
        None => None,
    }
}

// ---------------------------------------------------------------------------
// The flag that keeps the browser shut
// ---------------------------------------------------------------------------

/// Whether the help of `dsh web` lists `--no-open`, in either of its outputs.
pub open spec fn flag_is_listed(stdout: Seq<char>, stderr: Seq<char>) -> bool {
    crate::text::contains(stdout + stderr, "--no-open"@)
}

/// Whether the help of `dsh web` lists `--no-open`.
pub fn help_mentions_no_open(stdout: &str, stderr: &str) -> (yes: bool)
    ensures
        yes == flag_is_listed(stdout@, stderr@),
{
    let text = cat(stdout, stderr);
    str_contains(text.as_str(), "--no-open")
}

/// The flag where DSH understands it, else nothing.
pub open spec fn no_open_flag(supported: bool) -> Seq<char> {
    if supported {
        " --no-open"@
    } else {
        ""@
    }
}

/// What is logged when DSH understands the flag.
pub fn no_open_line(path: &str) -> (out: String)
    ensures
        out@ == "dsh at "@ + path@ + " supports --no-open (rc.8+); suppressing auto browser"@,
{
    cat3("dsh at ", path, " supports --no-open (rc.8+); suppressing auto browser")
}

/// Which DSH understands the flag, for every one that was asked in this
/// session.
pub struct NoOpenCache {
    map: StringHashMap<bool>,
}

impl NoOpenCache {
    /// The answers so far, by the path of the DSH.
    pub closed spec fn view(&self) -> Map<Seq<char>, bool> {
        self.map@
    }

    /// Nothing is remembered yet.
    pub fn new() -> (out: NoOpenCache)
        ensures
            out@ == Map::<Seq<char>, bool>::empty(),
    {
        NoOpenCache { map: StringHashMap::new() }
    }

    /// Whether a DSH understands the flag, where that is remembered.
    pub fn lookup(&self, path: &str) -> (out: Option<bool>)
        ensures
            out == (if self@.dom().contains(path@) {
                Some(self@[path@])
            } else {
                None
            }),
    {
        match self.map.get(path) {
            Some(supported) => Some(*supported),
            None => None,
        }
    }

    /// Remembers whether a DSH understands the flag.
    pub fn remember(&mut self, path: &str, supported: bool)
        ensures
            final(self)@ == old(self)@.insert(path@, supported),
    {
        self.map.insert(path.to_string(), supported);
    }
}

// ---------------------------------------------------------------------------
// The launch chain
// ---------------------------------------------------------------------------

/// A way to start DSH.
pub struct Candidate {
    /// The name that the user sees.
    pub label: String,
    /// The shell command.
    pub cmd: String,
    /// The working directory.
    pub cwd: String,
    /// How long it may take to become ready, in seconds.
    pub window: u64,
}

/// The meaning of a candidate.
#[verifier::ext_equal]
pub struct CandidateView {
    pub label: Seq<char>,
    pub cmd: Seq<char>,
    pub cwd: Seq<char>,
    pub window: u64,
}

impl Candidate {
    /// The meaning of the candidate.
    pub open spec fn view(&self) -> CandidateView {
        CandidateView {
            label: self.label@,
            cmd: self.cmd@,
            cwd: self.cwd@,
            window: self.window,
        }
    }
}

/// The meanings of a chain of candidates.
pub open spec fn chain_view(list: Seq<Candidate>) -> Seq<CandidateView> {
    list.map_values(|c: Candidate| c@)
}

/// A DSH that was found: its path, and whether it understands `--no-open`.
pub struct Dsh {
    pub path: String,
    pub no_open: bool,
}

/// What is known of the machine when the chain is built.
pub struct LaunchFacts {
    /// The user's own command (`DSH_CMD`).
    pub dsh_cmd: Option<String>,
    /// The working directory.
    pub cwd: String,
    /// The DSH that the user pointed to.
    pub custom: Option<Dsh>,
    /// The DSH on the search path.
    pub global: Option<Dsh>,
    /// The DSH of a project-local installation, and the root of it.
    pub local: Option<(Dsh, String)>,
    /// Whether the user has agreed to the npx download.
    pub prefer_npx: bool,
}

/// The command that starts a DSH.
pub open spec fn web_command(dsh: Dsh) -> Seq<char> {
    quoted_call(dsh.path@, "web"@) + no_open_flag(dsh.no_open)
}

/// The candidate for the user's own command. The command is taken as it is.
pub open spec fn override_part(f: LaunchFacts) -> Seq<CandidateView> {
    match not_blank(crate::text::opt_text(f.dsh_cmd)) {
        Some(cmd) => seq![
            CandidateView {
                label: "自定义启动命令"@,
                cmd,
                cwd: f.cwd@,
                window: DSH_CMD_WINDOW,
            },
        ],
        None => Seq::empty(),
    }
}

/// The candidate for the DSH that the user pointed to.
pub open spec fn custom_part(f: LaunchFacts) -> Seq<CandidateView> {
    match f.custom {
        Some(dsh) => seq![
            CandidateView {
                label: "自定义路径("@ + dsh.path@ + ")"@,
                cmd: web_command(dsh),
                cwd: f.cwd@,
                window: GLOBAL_WINDOW,
            },
        ],
        None => Seq::empty(),
    }
}

/// The candidate for the DSH on the search path.
pub open spec fn global_part(f: LaunchFacts) -> Seq<CandidateView> {
    match f.global {
        Some(dsh) => seq![
            CandidateView {
                label: "dsh web"@,
                cmd: web_command(dsh),
                cwd: f.cwd@,
                window: GLOBAL_WINDOW,
            },
        ],
        None => Seq::empty(),
    }
}

/// The candidate for a project-local installation. It runs in its own root.
pub open spec fn local_part(f: LaunchFacts) -> Seq<CandidateView> {
    match f.local {
        Some((dsh, root)) => seq![
            CandidateView {
                label: "本地安装("@ + root@ + ")"@,
                cmd: web_command(dsh),
                cwd: root@,
                window: GLOBAL_WINDOW,
            },
        ],
        None => Seq::empty(),
    }
}

/// The candidate that downloads DSH.
pub open spec fn npx_view(cwd: Seq<char>) -> CandidateView {
    CandidateView {
        label: "npx 下载并启动"@,
        cmd: "npx --yes @deepseek-ai/dsh web"@,
        cwd,
        window: NPX_FIRST_RUN_WINDOW,
    }
}

/// The download, where the user has agreed to it.
pub open spec fn npx_part(f: LaunchFacts) -> Seq<CandidateView> {
    if f.prefer_npx {
        seq![npx_view(f.cwd@)]
    } else {
        Seq::empty()
    }
}

/// The launch chain: the user's own command, the DSH that the user pointed to,
/// the one on the search path, a project-local one, and the download.
pub open spec fn launch_chain(f: LaunchFacts) -> Seq<CandidateView> {
    override_part(f) + custom_part(f) + global_part(f) + local_part(f) + npx_part(f)
}

fn web_call(dsh: &Dsh) -> (out: String)
    ensures
        out@ == web_command(*dsh),
{
    let mut out = quoted(dsh.path.as_str(), "web");
    out.append(
        if dsh.no_open {
            " --no-open"
        } else {
            ""
        },
    );
    out
}

/// The candidate that downloads DSH.
pub fn npx_candidate(cwd: &str) -> (out: Candidate)
    ensures
        out@ == npx_view(cwd@),
{
    Candidate {
        label: "npx 下载并启动".to_string(),
        cmd: "npx --yes @deepseek-ai/dsh web".to_string(),
        cwd: cwd.to_string(),
        window: NPX_FIRST_RUN_WINDOW,
    }
}

fn push_candidate(list: &mut Vec<Candidate>, label: String, cmd: String, cwd: &str, window: u64)
    ensures
        chain_view(final(list)@) == chain_view(old(list)@).push(
            CandidateView { label: label@, cmd: cmd@, cwd: cwd@, window },
        ),
{
    list.push(Candidate { label, cmd, cwd: cwd.to_string(), window });
    assert(chain_view(list@) =~= chain_view(old(list)@).push(
        CandidateView { label: label@, cmd: cmd@, cwd: cwd@, window },
    ));
}

/// The launch chain.
pub fn candidates(f: &LaunchFacts) -> (list: Vec<Candidate>)
    ensures
        chain_view(list@) == launch_chain(*f),
{
    let mut list: Vec<Candidate> = Vec::new();
    assert(chain_view(list@) =~= Seq::<CandidateView>::empty());
    match unless_blank(&f.dsh_cmd) {
        Some(cmd) => {
            let label = "自定义启动命令".to_string();
            push_candidate(&mut list, label, cmd, f.cwd.as_str(), DSH_CMD_WINDOW);
        },
        None => {},
    }
    assert(chain_view(list@) =~= override_part(*f));
    match &f.custom {
        Some(dsh) => {
            let label = cat3("自定义路径(", dsh.path.as_str(), ")");
            push_candidate(&mut list, label, web_call(dsh), f.cwd.as_str(), GLOBAL_WINDOW);
        },
        None => {},
    }
    assert(chain_view(list@) =~= override_part(*f) + custom_part(*f));
    match &f.global {
        Some(dsh) => {
            let label = "dsh web".to_string();
            push_candidate(&mut list, label, web_call(dsh), f.cwd.as_str(), GLOBAL_WINDOW);
        },
        None => {},
    }
    assert(chain_view(list@) =~= override_part(*f) + custom_part(*f) + global_part(*f));
    match &f.local {
        Some((dsh, root)) => {
            let label = cat3("本地安装(", root.as_str(), ")");
            push_candidate(&mut list, label, web_call(dsh), root.as_str(), GLOBAL_WINDOW);
        },
        None => {},
    }
    assert(chain_view(list@) =~= override_part(*f) + custom_part(*f) + global_part(*f)
        + local_part(*f));
    if f.prefer_npx {
        let ghost before = list@;
        list.push(npx_candidate(f.cwd.as_str()));
        assert(chain_view(list@) =~= chain_view(before).push(npx_view(f.cwd@)));
    }
    assert(chain_view(list@) =~= launch_chain(*f));
    list
}

/// The working directory: `DSH_CWD` where it is a directory, else the user's
/// profile.
pub open spec fn directory_choice(
    dsh_cwd: Option<Seq<char>>,
    is_dir: bool,
    profile: Option<Seq<char>>,
) -> Seq<char> {
    match dsh_cwd {
        Some(dir) if is_dir => dir,
        _ => match profile {
            Some(home) => home,
            None => "."@,
        },
    }
}

/// The working directory.
pub fn working_dir(dsh_cwd: &Option<String>, is_dir: bool, profile: &Option<String>) -> (out:
    String)
    ensures
        out@ == directory_choice(
            crate::text::opt_text(*dsh_cwd),
            is_dir,
            crate::text::opt_text(*profile),
        ),
{
    if is_dir {
        match dsh_cwd {
            Some(dir) => {
                return dir.clone();
            },
            None => {},
        }
    }
    match profile {
        Some(home) => home.clone(),
        None => ".".to_string(),
    }
}

/// The DSH on the search path: its full path where `where` names it.
pub open spec fn global_choice(on_path: bool, hit: Option<Seq<char>>) -> Option<Seq<char>> {
    if !on_path {
        None
    } else if hit is Some {
        hit
    } else {
        Some("dsh"@)
    }
}

/// The DSH on the search path.
pub fn global_dsh(on_path: bool, hit: Option<String>) -> (out: Option<String>)
    ensures
        crate::text::opt_text(out) == global_choice(on_path, crate::text::opt_text(hit)),
{
    if !on_path {
        return None;
    }
    match hit {
        Some(path) => Some(path),
        None => Some("dsh".to_string()),
    }
}

/// The first of three that there is.
pub open spec fn first_of(
    custom: Option<Seq<char>>,
    global: Option<Seq<char>>,
    local: Option<Seq<char>>,
) -> Option<Seq<char>> {
    if custom is Some {
        custom
    } else if global is Some {
        global
    } else {
        local
    }
}

/// The command that runs a subcommand of DSH, with the first DSH that there is.
pub open spec fn cli_call(
    custom: Option<Seq<char>>,
    global: Option<Seq<char>>,
    local: Option<Seq<char>>,
    sub: Seq<char>,
) -> Option<Seq<char>> {
    match first_of(custom, global, local) {
        Some(path) => Some(quoted_call(path, sub)),
        None => None,
    }
}

/// The command that runs a subcommand of DSH, with the first DSH in the order
/// of the launch chain. The user's own command is passed over: it is not
/// known what it runs.
pub fn dsh_cli_command(
    custom: &Option<String>,
    global: &Option<String>,
    local: &Option<String>,
    sub: &str,
) -> (out: Option<String>)
    ensures
        crate::text::opt_text(out) == cli_call(
            crate::text::opt_text(*custom),
            crate::text::opt_text(*global),
            crate::text::opt_text(*local),
            sub@,
        ),
{
    match custom {
        Some(path) => {
            return Some(quoted(path.as_str(), sub));
        },
        None => {},
    }
    match global {
        Some(path) => {
            return Some(quoted(path.as_str(), sub));
        },
        None => {},
    }
    match local {
        Some(path) => Some(quoted(path.as_str(), sub)),
        None => None,
    }
}

// ---------------------------------------------------------------------------
// Project-local installations
// ---------------------------------------------------------------------------

/// One text, where there is one.
pub open spec fn one(s: Option<Seq<char>>) -> Seq<Seq<char>> {
    match s {
        Some(t) => seq![t],
        None => Seq::empty(),
    }
}

/// The directories that may hold an installation: that of the program, the
/// working directory, and the user's profile unless it is one of them.
pub open spec fn roots(
    exe_dir: Option<Seq<char>>,
    cwd: Option<Seq<char>>,
    profile: Option<Seq<char>>,
) -> Seq<Seq<char>> {
    let first = one(exe_dir) + one(cwd);
    match profile {
        Some(home) if !first.contains(home) => first.push(home),
        _ => first,
    }
}

fn push_root(list: &mut Vec<String>, root: &Option<String>)
    ensures
        crate::text::strings(final(list)@) == crate::text::strings(old(list)@) + one(
            crate::text::opt_text(*root),
        ),
{
    match root {
        Some(dir) => {
            list.push(dir.clone());
        },
        None => {},
    }
    assert(crate::text::strings(list@) =~= crate::text::strings(old(list)@) + one(
        crate::text::opt_text(*root),
    ));
}

fn holds(list: &Vec<String>, wanted: &str) -> (yes: bool)
    ensures
        yes == crate::text::strings(list@).contains(wanted@),
{
    let mut i: usize = 0;
    while i < list.len()
        invariant
            i <= list@.len(),
            forall|k: int| 0 <= k < i ==> (#[trigger] list@[k])@ != wanted@,
        decreases list@.len() - i,
    {
        if str_eq(list[i].as_str(), wanted) {
            assert(crate::text::strings(list@)[i as int] == wanted@);
            return true;
        }
        i = i + 1;
    }
    assert forall|k: int| 0 <= k < list@.len() implies crate::text::strings(list@)[k] != wanted@ by {
        assert(crate::text::strings(list@)[k] == list@[k]@);
    }
    false
}

/// The directories that may hold an installation.
pub fn install_roots(
    exe_dir: &Option<String>,
    cwd: &Option<String>,
    profile: &Option<String>,
) -> (out: Vec<String>)
    ensures
        crate::text::strings(out@) == roots(
            crate::text::opt_text(*exe_dir),
            crate::text::opt_text(*cwd),
            crate::text::opt_text(*profile),
        ),
{
    let mut out: Vec<String> = Vec::new();
    assert(crate::text::strings(out@) =~= Seq::<Seq<char>>::empty());
    push_root(&mut out, exe_dir);
    push_root(&mut out, cwd);
    assert(crate::text::strings(out@) =~= one(crate::text::opt_text(*exe_dir)) + one(
        crate::text::opt_text(*cwd),
    ));
    let known = match profile {
        Some(home) => holds(&out, home.as_str()),
        None => true,
    };
    if !known {
        push_root(&mut out, profile);
    }
    assert(crate::text::strings(out@) =~= roots(
        crate::text::opt_text(*exe_dir),
        crate::text::opt_text(*cwd),
        crate::text::opt_text(*profile),
    ));
    out
}

/// Where the start script lies below the root of an installation.
pub fn shim_parts() -> (out: Vec<String>)
    ensures
        crate::text::strings(out@) == seq!["node_modules"@, ".bin"@, "dsh.cmd"@],
{
    let mut out: Vec<String> = Vec::new();
    out.push("node_modules".to_string());
    out.push(".bin".to_string());
    out.push("dsh.cmd".to_string());
    assert(crate::text::strings(out@) =~= seq!["node_modules"@, ".bin"@, "dsh.cmd"@]);
    out
}

/// The first of the directories that holds an installation: for each of them
/// `found` says whether its start script is a file.
pub fn first_install(found: &Vec<bool>) -> (at: Option<usize>)
    ensures
        match at {
            Some(i) => i < found@.len() && found@[i as int] && forall|k: int|
                0 <= k < i ==> !#[trigger] found@[k],
            None => forall|k: int| 0 <= k < found@.len() ==> !#[trigger] found@[k],
        },
{
    let mut i: usize = 0;
    while i < found.len()
        invariant
            i <= found@.len(),
            forall|k: int| 0 <= k < i ==> !#[trigger] found@[k],
        decreases found@.len() - i,
    {
        if found[i] {
            return Some(i);
        }
        i = i + 1;
    }
    None
}

// ---------------------------------------------------------------------------
// Repairing a profile
// ---------------------------------------------------------------------------

/// The program pnpm: the first on the search path, else the one of the global
/// npm directory where it is a file.
pub fn pnpm_choice(hit: Option<String>, fallback: Option<String>, is_file: bool) -> (out: Option<
    String,
>)
    ensures
        out == (if hit is Some {
            hit
        } else if is_file {
            fallback
        } else {
            None
        }),
{
    match hit {
        Some(path) => Some(path),
        None => if is_file {
            fallback
        } else {
            None
        },
    }
}

/// Where the global npm directory keeps pnpm, below `APPDATA`.
pub fn pnpm_parts() -> (out: Vec<String>)
    ensures
        crate::text::strings(out@) == seq!["npm"@, "pnpm.cmd"@],
{
    let mut out: Vec<String> = Vec::new();
    out.push("npm".to_string());
    out.push("pnpm.cmd".to_string());
    assert(crate::text::strings(out@) =~= seq!["npm"@, "pnpm.cmd"@]);
    out
}

/// Whether a character may stand in the name of a package.
pub open spec fn is_package_char(c: char) -> bool {
    'a' <= c <= 'z' || 'A' <= c <= 'Z' || '0' <= c <= '9' || c == '@' || c == '/' || c == '-' || c
        == '.' || c == '_'
}

/// Whether a name is fit for a command line.
pub open spec fn clean_name(pkg: Seq<char>) -> bool {
    forall|i: int| 0 <= i < pkg.len() ==> is_package_char(#[trigger] pkg[i])
}

/// Whether a name is fit for a command line.
pub fn is_clean_name(pkg: &str) -> (yes: bool)
    ensures
        yes == clean_name(pkg@),
{
    let chars = chars_of(pkg);
    let mut i: usize = 0;
    while i < chars.len()
        invariant
            i <= chars@.len(),
            chars@ == pkg@,
            forall|k: int| 0 <= k < i ==> is_package_char(#[trigger] pkg@[k]),
        decreases chars@.len() - i,
    {
        let c = chars[i];
        let ok = ('a' <= c && c <= 'z') || ('A' <= c && c <= 'Z') || ('0' <= c && c <= '9') || c
            == '@' || c == '/' || c == '-' || c == '.' || c == '_';
        if !ok {
            assert(!is_package_char(pkg@[i as int]));
            return false;
        }
        i = i + 1;
    }
    true
}

/// How Rust prints a text for debugging: in quotes, with escapes.
pub uninterp spec fn debug_text(s: Seq<char>) -> Seq<char>;

/// `format!` with the `Debug` form of a text.
#[verifier::external_body]
fn debug_form(s: &str) -> (out: String)
    ensures
        out@ == debug_text(s@),
{
    format!("{:?}", s)
}

/// A thing that is done at most once per session.
pub struct Once {
    done: bool,
}

impl Once {
    /// Whether it has been done.
    pub closed spec fn view(&self) -> bool {
        self.done
    }

    /// It has not been done yet.
    pub fn new() -> (out: Once)
        ensures
            !out@,
    {
        Once { done: false }
    }

    /// Claims the one time. Returns whether it was still to be had.
    pub fn claim(&mut self) -> (first: bool)
        ensures
            final(self)@,
            first == !old(self)@,
    {
        let first = !self.done;
        self.done = true;
        first
    }

    /// Whether it has been done.
    pub fn is_done(&self) -> (done: bool)
        ensures
            done == self@,
    {
        self.done
    }
}

/// Whether a missing package is installed, and how.
pub enum RepairPlan {
    /// It is not, with what is logged.
    Skip { line: String },
    /// It is, by a command, with what is logged before.
    Run { line: String, command: String },
}

/// The command that installs a package in a profile, past the waiting time
/// for fresh releases.
pub open spec fn repair_command(dir: Seq<char>, pnpm: Seq<char>, pkg: Seq<char>) -> Seq<char> {
    "cd /d \""@ + dir + "\" && \""@ + pnpm + "\" add --save-exact "@ + pkg
        + " --config.minimumReleaseAge=0"@
}

/// Why a package is not installed: the one time has been used, the name is not
/// fit for a command line, there is no pnpm, or there is no profile.
pub open spec fn repair_refusal(
    used: bool,
    pkg: Seq<char>,
    pnpm: Option<Seq<char>>,
    dir_exists: bool,
) -> Option<Seq<char>> {
    if used {
        Some("[dsh-desktop] bundle repair skipped: already attempted this session"@)
    } else if !clean_name(pkg) {
        Some("[dsh-desktop] bundle repair skipped: odd package name "@ + debug_text(pkg))
    } else if pnpm is None {
        Some("[dsh-desktop] bundle repair skipped: pnpm not found"@)
    } else if !dir_exists {
        Some("[dsh-desktop] bundle repair skipped: web profile dir missing"@)
    } else {
        None
    }
}

/// Decides on the installation of a missing package. It is tried once per
/// session: whatever comes of it, the one time is used.
pub fn plan_repair(
    once: &mut Once,
    pkg: &str,
    pnpm: &Option<String>,
    dir: &str,
    dir_exists: bool,
) -> (out: RepairPlan)
    ensures
        final(once)@,
        match repair_refusal(old(once)@, pkg@, crate::text::opt_text(*pnpm), dir_exists) {
            Some(reason) => out matches RepairPlan::Skip { line } && line@ == reason,
            None => out matches RepairPlan::Run { line, command } && line@
                == "bundle repair: pnpm add "@ + pkg@ + " into web profile (cooldown bypassed)"@
                && command@ == repair_command(dir@, pnpm->Some_0@, pkg@),
        },
{
    if !once.claim() {
        return RepairPlan::Skip {
            line: "[dsh-desktop] bundle repair skipped: already attempted this session".to_string(),
        };
    }
    if !is_clean_name(pkg) {
        let shown = debug_form(pkg);
        return RepairPlan::Skip {
            line: cat(
                "[dsh-desktop] bundle repair skipped: odd package name ",
                shown.as_str(),
            ),
        };
    }
    match pnpm {
        None => RepairPlan::Skip {
            line: "[dsh-desktop] bundle repair skipped: pnpm not found".to_string(),
        },
        Some(program) => {
            if !dir_exists {
                return RepairPlan::Skip {
                    line: "[dsh-desktop] bundle repair skipped: web profile dir missing".to_string(),
                };
            }
            let line = cat3(
                "bundle repair: pnpm add ",
                pkg,
                " into web profile (cooldown bypassed)",
            );
            let mut command = cat3("cd /d \"", dir, "\" && \"");
            command.append(program.as_str());
            command.append("\" add --save-exact ");
            command.append(pkg);
            command.append(" --config.minimumReleaseAge=0");
            RepairPlan::Run { line, command }
        },
    }
}

// ---------------------------------------------------------------------------
// A command with a time limit
// ---------------------------------------------------------------------------

/// How a command is doing.
pub enum CommandState {
    /// It is over, with its exit code where it has one.
    Exited { success: bool, code: Option<i32> },
    /// It runs, since so many nanoseconds.
    Running { elapsed: u128 },
    /// Its state could not be read.
    Unknown { error: String },
}

/// What is done about it.
pub enum CommandStep {
    /// It is over; what is logged, and whether it worked.
    Done { ok: bool, level: LogLevel, line: String },
    /// It has run too long: it is killed, and that is logged.
    Kill { line: String },
    /// It is looked at again after half a second.
    Wait,
}

/// Nanoseconds in a second.
pub const SECOND: u128 = 1_000_000_000;

/// What is logged at the end of a command.
pub open spec fn end_line(what: Seq<char>, success: bool, code: Option<i32>) -> Seq<char> {
    "[dsh-desktop] "@ + what + " "@ + (if success {
        "ok"@
    } else {
        "FAILED"@
    }) + " (exit "@ + crate::text::signed_decimal(
        match code {
            Some(c) => c as int,
            None => -1,
        },
    ) + ")"@
}

/// What is logged of a command that could not be started.
pub fn spawn_failed_line(what: &str, cmd: &str) -> (out: String)
    ensures
        out@ == "[dsh-desktop] "@ + what@ + " spawn failed: "@ + cmd@,
{
    let mut out = cat3("[dsh-desktop] ", what, " spawn failed: ");
    out.append(cmd);
    out
}

/// What is done about a command, in short.
pub enum CommandVerdict {
    Succeeded,
    Failed,
    Killed,
    Waiting,
}

/// What is done about a command that may run for `cap` seconds.
pub open spec fn bounded_verdict(cap: u64, state: CommandState) -> CommandVerdict {
    match state {
        CommandState::Exited { success, code } => if success {
            CommandVerdict::Succeeded
        } else {
            CommandVerdict::Failed
        },
        CommandState::Running { elapsed } => if elapsed > cap * SECOND {
            CommandVerdict::Killed
        } else {
            CommandVerdict::Waiting
        },
        CommandState::Unknown { error } => CommandVerdict::Failed,
    }
}

/// Decides what is done about a command that may run for `cap` seconds. It is
/// killed only after that time; only an exit code of success counts as one.
pub fn bounded_step(what: &str, cap: u64, state: &CommandState) -> (out: CommandStep)
    ensures
        match bounded_verdict(cap, *state) {
            CommandVerdict::Succeeded => out matches CommandStep::Done { ok, .. } && ok,
            CommandVerdict::Failed => out matches CommandStep::Done { ok, .. } && !ok,
            CommandVerdict::Killed => out is Kill,
            CommandVerdict::Waiting => out is Wait,
        },
        match *state {
            CommandState::Exited { success, code } => out matches CommandStep::Done {
                ok,
                level,
                line,
            } && ok == success && level == (if success {
                LogLevel::Info
            } else {
                LogLevel::Warn
            }) && line@ == end_line(what@, success, code),
            CommandState::Running { elapsed } => if elapsed > cap * SECOND {
                out matches CommandStep::Kill { line } && line@ == "[dsh-desktop] "@ + what@
                    + " timed out ("@ + crate::text::decimal(cap as nat) + "s, killed)"@
            } else {
                out is Wait
            },
            CommandState::Unknown { error } => out matches CommandStep::Done { ok, level, line }
                && !ok && level == LogLevel::Warn && line@ == "[dsh-desktop] "@ + what@
                + " wait failed: "@ + error@,
        },
{
    match state {
        CommandState::Exited { success, code } => {
            let mut line = cat3("[dsh-desktop] ", what, " ");
            line.append(
                if *success {
                    "ok"
                } else {
                    "FAILED"
                },
            );
            line.append(" (exit ");
            let number: i32 = match code {
                Some(c) => *c,
                None => -1,
            };
            line.append(crate::text::signed_string(number).as_str());
            line.append(")");
            let level = if *success {
                LogLevel::Info
            } else {
                LogLevel::Warn
            };
            CommandStep::Done { ok: *success, level, line }
        },
        CommandState::Running { elapsed } => {
            if *elapsed > cap as u128 * SECOND {
                let mut line = cat3("[dsh-desktop] ", what, " timed out (");
                line.append(decimal_string(cap).as_str());
                line.append("s, killed)");
                CommandStep::Kill { line }
            } else {
                CommandStep::Wait
            }
        },
        CommandState::Unknown { error } => {
            let mut line = cat3("[dsh-desktop] ", what, " wait failed: ");
            line.append(error.as_str());
            CommandStep::Done { ok: false, level: LogLevel::Warn, line }
        },
    }
}

// ---------------------------------------------------------------------------
// What the chain guarantees
// ---------------------------------------------------------------------------

/// The same machine, but without the user's consent to the download.
pub open spec fn without_consent(f: LaunchFacts) -> LaunchFacts {
    LaunchFacts { prefer_npx: false, ..f }
}

/// The same machine, but without a command of the user's own.
pub open spec fn without_override(f: LaunchFacts) -> LaunchFacts {
    LaunchFacts { dsh_cmd: None, ..f }
}

/// The download comes last, and only with the user's consent; without it the
/// chain is what is installed.
pub proof fn law_download_comes_last_and_with_consent(f: LaunchFacts)
    ensures
        launch_chain(f) == launch_chain(without_consent(f)) + npx_part(f),
        !f.prefer_npx ==> launch_chain(f) == override_part(f) + custom_part(f) + global_part(f)
            + local_part(f),
{
    assert(launch_chain(f) =~= launch_chain(without_consent(f)) + npx_part(f));
    assert(launch_chain(without_consent(f)) =~= override_part(f) + custom_part(f) + global_part(f)
        + local_part(f));
}

/// The user's own command leads the chain and does not replace it.
pub proof fn law_override_leads_and_does_not_replace(f: LaunchFacts)
    ensures
        launch_chain(f) == override_part(f) + launch_chain(without_override(f)),
{
    assert(launch_chain(f) =~= override_part(f) + launch_chain(without_override(f)));
}

/// The chain is empty exactly when there is no DSH and no consent to get one.
pub proof fn law_empty_chain_means_nothing_to_start(f: LaunchFacts)
    ensures
        launch_chain(f).len() == 0 <==> {
            &&& not_blank(crate::text::opt_text(f.dsh_cmd)) is None
            &&& f.custom is None
            &&& f.global is None
            &&& f.local is None
            &&& !f.prefer_npx
        },
{
}

/// The first installed DSH in the order of the chain.
pub open spec fn first_installed(f: LaunchFacts) -> Option<Dsh> {
    if f.custom is Some {
        f.custom
    } else if f.global is Some {
        f.global
    } else {
        local_dsh(f)
    }
}

/// The DSH of a project-local installation.
pub open spec fn local_dsh(f: LaunchFacts) -> Option<Dsh> {
    match f.local {
        Some((dsh, _)) => Some(dsh),
        None => None,
    }
}

/// The path of a DSH.
pub open spec fn path_of(dsh: Option<Dsh>) -> Option<Seq<char>> {
    match dsh {
        Some(d) => Some(d.path@),
        None => None,
    }
}

/// The DSH that runs subcommands is the one that the chain tries first, after
/// the user's own command.
pub proof fn law_subcommands_use_the_first_installed(f: LaunchFacts)
    ensures
        first_of(path_of(f.custom), path_of(f.global), path_of(local_dsh(f))) == path_of(
            first_installed(f),
        ),
        match first_installed(f) {
            Some(dsh) => launch_chain(without_override(f))[0].cmd == web_command(dsh),
            None => launch_chain(without_override(f)) == npx_part(f),
        },
{
    assert(first_installed(f) is None ==> launch_chain(without_override(f)) =~= npx_part(f));
}

// ---------------------------------------------------------------------------
// What the commands guarantee
// ---------------------------------------------------------------------------

/// Whether a command starts a DSH: it begins with a quote, the text up to the
/// closing quote is the whole path, `web` follows, and the flag that keeps
/// the browser shut where the DSH understands it.
pub open spec fn starts_dsh(cmd: Seq<char>, path: Seq<char>, no_open: bool) -> bool {
    let n = path.len() as int;
    &&& cmd.len() == n + (if no_open {
        16int
    } else {
        6int
    })
    &&& cmd[0] == '"'
    &&& cmd.subrange(1, 1 + n) == path
    &&& cmd[1 + n] == '"'
    &&& cmd.subrange(2 + n, 6 + n) == " web"@
    &&& no_open ==> cmd.skip(6 + n) == " --no-open"@
}

proof fn lemma_starts_dsh(dsh: Dsh)
    ensures
        starts_dsh(web_command(dsh), dsh.path@, dsh.no_open),
{
    reveal_strlit("\"");
    reveal_strlit("\" ");
    reveal_strlit("web");
    reveal_strlit(" web");
    reveal_strlit(" --no-open");
    reveal_strlit("");
    let cmd = web_command(dsh);
    let n = dsh.path@.len() as int;
    assert(cmd.subrange(1, 1 + n) =~= dsh.path@);
    assert(cmd.subrange(2 + n, 6 + n) =~= " web"@);
    if dsh.no_open {
        assert(cmd.skip(6 + n) =~= " --no-open"@);
    }
}

/// How many of some things there are, of one.
pub open spec fn one_if(yes: bool) -> int {
    if yes {
        1
    } else {
        0
    }
}

/// Whether a text holds a character other than whitespace.
pub open spec fn says_something(s: Option<String>) -> bool {
    s matches Some(t) && exists|k: int|
        0 <= k < t@.len() && !crate::text::is_white(#[trigger] t@[k])
}

proof fn lemma_says_something(s: Option<String>)
    ensures
        says_something(s) <==> not_blank(crate::text::opt_text(s)) is Some,
        says_something(s) ==> not_blank(crate::text::opt_text(s)) == Some(s->0@),
{
    match s {
        Some(t) => {
            let all = t@;
            crate::text::lemma_skip_white(all, 0);
            let a = crate::text::skip_white(all, 0);
            let rest = all.skip(a);
            crate::text::lemma_back_white(rest, rest.len() as int);
            if says_something(s) {
                let k = choose|k: int| 0 <= k < all.len() && !crate::text::is_white(#[trigger] all[k]);
                assert(rest[k - a] == all[k]);
            }
            if a < all.len() {
                assert(!crate::text::is_white(all[a]));
                assert(rest[0] == all[a]);
            }
        },
        None => {},
    }
}

/// The launch chain holds every way to start DSH that there is, each once and
/// in this order: the user's own command as it is, the DSH that the user
/// pointed to, the one on the search path, the one of a project, and the
/// download where the user has agreed to it. Installed ones are called by
/// their quoted path, so a path with spaces works, and each way has the time
/// it needs.
pub proof fn law_every_way_to_start_is_in_the_chain(f: LaunchFacts)
    ensures
        ({
            let chain = launch_chain(f);
            let own = one_if(says_something(f.dsh_cmd));
            let custom = own + one_if(f.custom is Some);
            let global = custom + one_if(f.global is Some);
            let local = global + one_if(f.local is Some);
            &&& chain.len() == local + one_if(f.prefer_npx)
            &&& says_something(f.dsh_cmd) ==> chain[0].cmd == f.dsh_cmd->0@ && chain[0].cwd == f.cwd@
                && chain[0].window == 120
            &&& f.custom matches Some(dsh) ==> starts_dsh(chain[own].cmd, dsh.path@, dsh.no_open)
                && chain[own].cwd == f.cwd@ && chain[own].window == 30
            &&& f.global matches Some(dsh) ==> starts_dsh(chain[custom].cmd, dsh.path@, dsh.no_open)
                && chain[custom].cwd == f.cwd@ && chain[custom].window == 30
            &&& f.local matches Some((dsh, root)) ==> starts_dsh(
                chain[global].cmd,
                dsh.path@,
                dsh.no_open,
            ) && chain[global].cwd == root@ && chain[global].window == 30
            &&& f.prefer_npx ==> chain[local].cmd == "npx --yes @deepseek-ai/dsh web"@
                && chain[local].cwd == f.cwd@ && chain[local].window == 300
        }),
{
    lemma_says_something(f.dsh_cmd);
    if f.custom is Some {
        lemma_starts_dsh(f.custom->0);
    }
    if f.global is Some {
        lemma_starts_dsh(f.global->0);
    }
    if let Some((dsh, _)) = f.local {
        lemma_starts_dsh(dsh);
    }
    assert(custom_part(f).len() == one_if(f.custom is Some));
    assert(global_part(f).len() == one_if(f.global is Some));
    assert(local_part(f).len() == one_if(f.local is Some));
    assert(override_part(f).len() == one_if(says_something(f.dsh_cmd)));
}

/// The user sees which way is tried: each candidate has a name of its own, and
/// the names of an entered path and of a project tell which.
pub proof fn law_candidates_are_told_apart(f: LaunchFacts)
    ensures
        ({
            let chain = launch_chain(f);
            let own = one_if(says_something(f.dsh_cmd));
            let custom = own + one_if(f.custom is Some);
            let global = custom + one_if(f.global is Some);
            &&& f.custom matches Some(dsh) ==> crate::text::contains(chain[own].label, dsh.path@)
            &&& f.global is Some ==> chain[custom].label == "dsh web"@
            &&& f.local matches Some((dsh, root)) ==> crate::text::contains(chain[global].label, root@)
        }),
{
    lemma_says_something(f.dsh_cmd);
    assert(custom_part(f).len() == one_if(f.custom is Some));
    assert(global_part(f).len() == one_if(f.global is Some));
    assert(local_part(f).len() == one_if(f.local is Some));
    assert(override_part(f).len() == one_if(says_something(f.dsh_cmd)));
    if f.custom is Some {
        let path = f.custom->0.path@;
        crate::text::law_containing_is_being_cut_around("自定义路径("@ + path + ")"@, path);
    }
    if let Some((_, dir)) = f.local {
        let root = dir@;
        crate::text::law_containing_is_being_cut_around("本地安装("@ + root + ")"@, root);
    }
}

/// A call by path begins with a quote. The text up to the next quote is the
/// whole path, and what is asked of the program follows behind a space.
pub proof fn law_a_call_quotes_the_whole_path(path: Seq<char>, rest: Seq<char>)
    requires
        !path.contains('"'),
    ensures
        quoted_call(path, rest)[0] == '"',
        crate::text::index_from(quoted_call(path, rest), seq!['"'], 1) == Some(
            (1 + path.len()) as int,
        ),
        quoted_call(path, rest).subrange(1, 1 + path.len() as int) == path,
        quoted_call(path, rest).skip(2 + path.len() as int) == seq![' '] + rest,
{
    reveal_strlit("\"");
    reveal_strlit("\" ");
    let call = quoted_call(path, rest);
    let n = path.len() as int;
    let quote = seq!['"'];
    assert(call.subrange(1 + n, 2 + n) =~= quote);
    assert forall|j: int| 1 <= j < 1 + n implies #[trigger] call.subrange(j, j + 1) != quote by {
        assert(call.subrange(j, j + 1)[0] == path[j - 1]);
    }
    crate::text::law_a_search_finds_the_first_place(call, quote, 1, 1 + n);
    assert(call.subrange(1, 1 + n) =~= path);
    assert(call.skip(2 + n) =~= seq![' '] + rest);
}

/// `cmd` gets the switches `/S` and `/C`, and the command between one pair of
/// quotes, unchanged: with the first and the last quote off, it is there again.
pub proof fn law_the_shell_gets_the_command_unchanged(cmd: Seq<char>)
    ensures
        ({
            let line = shell_arguments(cmd);
            &&& line.take(6) == "/S /C "@
            &&& line.len() == cmd.len() + 8
            &&& line[6] == '"'
            &&& line.last() == '"'
            &&& line.subrange(7, line.len() - 1) == cmd
        }),
{
    reveal_strlit("/S /C \"");
    reveal_strlit("/S /C ");
    reveal_strlit("\"");
    let line = shell_arguments(cmd);
    assert(line.take(6) =~= "/S /C "@);
    assert(line.subrange(7, line.len() - 1) =~= cmd);
}

/// The first line that a tool prints is what counts, without the whitespace
/// round it and whatever follows; where that line is blank, nothing counts.
pub proof fn law_the_first_line_counts(
    left: Seq<char>,
    core: Seq<char>,
    right: Seq<char>,
    rest: Seq<char>,
)
    requires
        forall|k: int| 0 <= k < left.len() ==> crate::text::is_white(#[trigger] left[k]),
        forall|k: int| 0 <= k < right.len() ==> crate::text::is_white(#[trigger] right[k]),
        core.len() > 0 ==> !crate::text::is_white(core[0]) && !crate::text::is_white(core.last()),
        !(left + core + right).contains('\n'),
    ensures
        ({
            let line = left + core + right;
            let out = if core.len() > 0 {
                Some(core)
            } else {
                None
            };
            first_line(line) == out && first_line(line + seq!['\r', '\n'] + rest) == out
        }),
        first_line(Seq::empty()) is None,
{
    let line = left + core + right;
    crate::text::law_lines_end_at_line_feeds(line, rest);
    crate::text::law_trimming_takes_off_the_whitespace(left, core, right);
}

/// The directory that the user has set is taken where it is one, else the
/// user's profile, else the current directory. The DSH on the search path goes
/// by its full path where that is known.
pub proof fn law_choices_fall_back(
    dir: Seq<char>,
    is_dir: bool,
    profile: Seq<char>,
    hit: Seq<char>,
)
    ensures
        directory_choice(Some(dir), true, Some(profile)) == dir,
        directory_choice(Some(dir), true, None) == dir,
        directory_choice(Some(dir), false, Some(profile)) == profile,
        directory_choice(None, is_dir, Some(profile)) == profile,
        directory_choice(None, is_dir, None) == "."@,
        directory_choice(Some(dir), false, None) == "."@,
        global_choice(true, Some(hit)) == Some(hit),
        global_choice(true, None) == Some("dsh"@),
        global_choice(false, Some(hit)) is None,
        first_of(Some(dir), Some(profile), Some(hit)) == Some(dir),
        first_of(None, Some(profile), Some(hit)) == Some(profile),
        first_of(None, None, Some(hit)) == Some(hit),
        first_of(None, None, None) is None,
{
}

/// Every directory that is known is looked into, that of the program first,
/// and the profile not a second time where it is one of the others.
pub proof fn law_every_directory_is_looked_into(
    exe_dir: Option<Seq<char>>,
    cwd: Option<Seq<char>>,
    profile: Option<Seq<char>>,
    other: Seq<char>,
)
    ensures
        exe_dir matches Some(d) ==> roots(exe_dir, cwd, profile).contains(d) && roots(
            exe_dir,
            cwd,
            profile,
        )[0] == d,
        cwd matches Some(d) ==> roots(exe_dir, cwd, profile).contains(d),
        profile matches Some(d) ==> roots(exe_dir, cwd, profile).contains(d),
        roots(exe_dir, cwd, profile).contains(other) ==> exe_dir == Some(other) || cwd == Some(other)
            || profile == Some(other),
        profile == exe_dir || profile == cwd ==> roots(exe_dir, cwd, profile).len() == one_if(
            exe_dir is Some,
        ) + one_if(cwd is Some),
        profile is Some && profile != exe_dir && profile != cwd ==> roots(exe_dir, cwd, profile).len()
            == one_if(exe_dir is Some) + one_if(cwd is Some) + 1,
{
    let first = one(exe_dir) + one(cwd);
    let all = roots(exe_dir, cwd, profile);
    assert(forall|k: int| 0 <= k < first.len() ==> #[trigger] all[k] == first[k]);
    if exe_dir is Some {
        assert(first[0] == exe_dir->0);
        assert(all[0] == first[0]);
    }
    if cwd is Some {
        assert(first.last() == cwd->0);
        assert(all[first.len() - 1] == cwd->0);
    }
    if profile is Some {
        let home = profile->0;
        if first.contains(home) {
            let k = choose|k: int| 0 <= k < first.len() && first[k] == home;
            assert(all[k] == home);
            assert(profile == exe_dir || profile == cwd);
        } else {
            assert(all.last() == home);
            if exe_dir == profile {
                assert(first.contains(first[0]));
            }
            if cwd == profile {
                assert(first.contains(first.last()));
            }
        }
    }
}

/// The name of a package reaches a command line only where it is made of
/// letters, digits and a few harmless signs: nothing that a shell would take
/// for a separator, a quote, a redirection or a variable.
pub proof fn law_no_shell_sign_passes(name: Seq<char>, i: int)
    requires
        0 <= i < name.len(),
    ensures
        name[i] == ' ' || name[i] == '"' || name[i] == '&' || name[i] == '|' || name[i] == '<'
            || name[i] == '>' || name[i] == '^' || name[i] == '%' || name[i] == ';' || name[i] == '\''
            || name[i] == '\n' || name[i] == '\r' || name[i] == '(' || name[i] == ')' || name[i]
            == '$' || name[i] == '`' || name[i] == '!' || name[i] == '\\' || name[i] as int > 0x7e
            ==> !clean_name(name),
        clean_name(name) ==> clean_name(name.take(i)) && clean_name(name.skip(i)),
{
    assert(clean_name(name) ==> is_package_char(name[i]));
    if clean_name(name) {
        assert forall|k: int| 0 <= k < name.take(i).len() implies is_package_char(
            #[trigger] name.take(i)[k],
        ) by {
            assert(name.take(i)[k] == name[k]);
        }
        assert forall|k: int| 0 <= k < name.skip(i).len() implies is_package_char(
            #[trigger] name.skip(i)[k],
        ) by {
            assert(name.skip(i)[k] == name[i + k]);
        }
    }
}

/// A name of letters, digits and these signs is fit, however long it is.
pub proof fn law_ordinary_names_pass(name: Seq<char>, c: char)
    requires
        clean_name(name),
        0x61 <= c as int <= 0x7a || 0x41 <= c as int <= 0x5a || 0x30 <= c as int <= 0x39 || c == '@'
            || c == '/' || c == '-' || c == '.' || c == '_',
    ensures
        clean_name(name.push(c)),
        clean_name(Seq::empty()),
{
    assert forall|k: int| 0 <= k < name.push(c).len() implies is_package_char(
        #[trigger] name.push(c)[k],
    ) by {
        if k < name.len() {
            assert(name.push(c)[k] == name[k]);
        }
    }
}

/// A missing package is installed where nothing stands against it: the one
/// time is not used, the name is fit, and there are pnpm and a profile. Any
/// one of these missing is enough to leave it.
pub proof fn law_a_repair_needs_everything(
    used: bool,
    pkg: Seq<char>,
    pnpm: Option<Seq<char>>,
    dir_exists: bool,
)
    ensures
        repair_refusal(used, pkg, pnpm, dir_exists) is None <==> {
            &&& !used
            &&& clean_name(pkg)
            &&& pnpm is Some
            &&& dir_exists
        },
{
}

/// The command of a repair changes to the profile, by its quoted path, and has
/// pnpm, by its quoted path, add exactly that package, past the waiting time.
pub proof fn law_a_repair_adds_the_package_in_the_profile(
    dir: Seq<char>,
    pnpm: Seq<char>,
    pkg: Seq<char>,
)
    ensures
        ({
            let d = dir.len() as int;
            let p = pnpm.len() as int;
            let call = repair_command(dir, pnpm, pkg);
            &&& call.take(7) == "cd /d \""@
            &&& call.subrange(7, 7 + d) == dir
            &&& call.subrange(7 + d, 13 + d) == "\" && \""@
            &&& call.subrange(13 + d, 13 + d + p) == pnpm
            &&& call.subrange(13 + d + p, 32 + d + p) == "\" add --save-exact "@
            &&& call.skip(32 + d + p) == pkg + " --config.minimumReleaseAge=0"@
        }),
{
    reveal_strlit("cd /d \"");
    reveal_strlit("\" && \"");
    reveal_strlit("\" add --save-exact ");
    let d = dir.len() as int;
    let p = pnpm.len() as int;
    let call = repair_command(dir, pnpm, pkg);
    assert(call.take(7) =~= "cd /d \""@);
    assert(call.subrange(7, 7 + d) =~= dir);
    assert(call.subrange(7 + d, 13 + d) =~= "\" && \""@);
    assert(call.subrange(13 + d, 13 + d + p) =~= pnpm);
    assert(call.subrange(13 + d + p, 32 + d + p) =~= "\" add --save-exact "@);
    assert(call.skip(32 + d + p) =~= pkg + " --config.minimumReleaseAge=0"@);
}

/// A command has its whole time: it is killed only when that is over, and
/// then it is. It worked exactly where it ended with success.
pub proof fn law_a_command_has_its_whole_time(
    cap: u64,
    elapsed: u128,
    success: bool,
    code: Option<i32>,
    error: String,
)
    ensures
        bounded_verdict(cap, CommandState::Running { elapsed }) is Killed <==> elapsed > cap
            * 1_000_000_000,
        bounded_verdict(cap, CommandState::Running { elapsed }) is Waiting <==> elapsed <= cap
            * 1_000_000_000,
        bounded_verdict(cap, CommandState::Exited { success, code }) is Succeeded <==> success,
        bounded_verdict(cap, CommandState::Exited { success, code }) is Failed <==> !success,
        bounded_verdict(cap, CommandState::Unknown { error }) is Failed,
{
}

/// A variable that holds nothing but whitespace counts as unset; any other is
/// taken as it is.
pub proof fn law_a_blank_variable_counts_as_unset(s: Seq<char>)
    ensures
        (exists|k: int| 0 <= k < s.len() && !crate::text::is_white(#[trigger] s[k])) ==> not_blank(
            Some(s),
        ) == Some(s),
        (forall|k: int| 0 <= k < s.len() ==> crate::text::is_white(#[trigger] s[k])) ==> not_blank(
            Some(s),
        ) is None,
        not_blank(None) is None,
{
    crate::text::lemma_skip_white(s, 0);
    let a = crate::text::skip_white(s, 0);
    let rest = s.skip(a);
    crate::text::lemma_back_white(rest, rest.len() as int);
    if a < s.len() {
        assert(!crate::text::is_white(s[a]));
        assert(rest[0] == s[a]);
    }
    if exists|k: int| 0 <= k < s.len() && !crate::text::is_white(#[trigger] s[k]) {
        let k = choose|k: int| 0 <= k < s.len() && !crate::text::is_white(#[trigger] s[k]);
        assert(rest[k - a] == s[k]);
    }
}

/// A subcommand runs with the first DSH that there is, by its quoted path: the
/// one that the user pointed to, else the one on the search path, else the one
/// of a project.
pub proof fn law_a_subcommand_runs_with_the_first_dsh(
    a: Seq<char>,
    global: Option<Seq<char>>,
    local: Option<Seq<char>>,
    sub: Seq<char>,
)
    ensures
        ({
            let call = seq!['"'] + a + seq!['"', ' '] + sub;
            &&& cli_call(Some(a), global, local, sub) == Some(call)
            &&& cli_call(None, Some(a), local, sub) == Some(call)
            &&& cli_call(None, None, Some(a), sub) == Some(call)
            &&& cli_call(None, None, None, sub) is None
        }),
{
    reveal_strlit("\"");
    reveal_strlit("\" ");
    assert(quoted_call(a, sub) =~= seq!['"'] + a + seq!['"', ' '] + sub);
}

/// The flag is used where the help lists it, on whichever output.
pub proof fn law_the_flag_is_seen_on_either_output(
    stdout: Seq<char>,
    stderr: Seq<char>,
    before: Seq<char>,
    behind: Seq<char>,
)
    ensures
        flag_is_listed(before + "--no-open"@ + behind, stderr),
        flag_is_listed(stdout, before + "--no-open"@ + behind),
        crate::text::is_free_of(stdout + stderr, "--no-open"@) ==> !flag_is_listed(stdout, stderr),
{
    let flag = "--no-open"@;
    let a = before + flag + behind;
    assert(a + stderr =~= before + flag + (behind + stderr));
    crate::text::law_containing_is_being_cut_around(a + stderr, flag);
    assert(stdout + a =~= (stdout + before) + flag + behind);
    crate::text::law_containing_is_being_cut_around(stdout + a, flag);
    let s = stdout + stderr;
    crate::text::lemma_index_from(s, flag, 0);
    if crate::text::contains(s, flag) {
        let k = crate::text::index_of(s, flag)->0;
        assert(s.subrange(k, k + flag.len()) == flag);
    }
}

/// What a program printed counts without the whitespace round it, and not at
/// all where nothing else was printed.
pub proof fn law_output_counts_without_whitespace(
    left: Seq<char>,
    core: Seq<char>,
    right: Seq<char>,
)
    requires
        forall|k: int| 0 <= k < left.len() ==> crate::text::is_white(#[trigger] left[k]),
        forall|k: int| 0 <= k < right.len() ==> crate::text::is_white(#[trigger] right[k]),
        core.len() > 0 ==> !crate::text::is_white(core[0]) && !crate::text::is_white(core.last()),
    ensures
        captured_text(left + core + right) == (if core.len() > 0 {
            Some(core)
        } else {
            None
        }),
{
    crate::text::law_trimming_takes_off_the_whitespace(left, core, right);
}

/// The directories are looked into in this order: that of the program, the
/// working directory, and the profile.
pub proof fn law_directories_are_looked_into_in_order(
    exe_dir: Seq<char>,
    cwd: Seq<char>,
    profile: Seq<char>,
)
    requires
        profile != exe_dir,
        profile != cwd,
    ensures
        roots(Some(exe_dir), Some(cwd), Some(profile)) == seq![exe_dir, cwd, profile],
        roots(None, Some(cwd), Some(profile)) == seq![cwd, profile],
        roots(Some(exe_dir), None, Some(profile)) == seq![exe_dir, profile],
        roots(None, None, Some(profile)) == seq![profile],
        roots(None, None, None).len() == 0,
{
    let a = one(Some(exe_dir)) + one(Some(cwd));
    assert(a =~= seq![exe_dir, cwd]);
    assert(a[0] == exe_dir && a[1] == cwd);
    assert(roots(Some(exe_dir), Some(cwd), Some(profile)) =~= seq![exe_dir, cwd, profile]);
    let b = one(None) + one(Some(cwd));
    assert(b =~= seq![cwd]);
    assert(roots(None, Some(cwd), Some(profile)) =~= seq![cwd, profile]);
    let c = one(Some(exe_dir)) + one(None);
    assert(c =~= seq![exe_dir]);
    assert(roots(Some(exe_dir), None, Some(profile)) =~= seq![exe_dir, profile]);
    let d = one(None) + one(None);
    assert(d =~= Seq::<Seq<char>>::empty());
    assert(roots(None, None, Some(profile)) =~= seq![profile]);
}

} // verus!
