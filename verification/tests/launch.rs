use dsh_desktop::launch::{
    bounded_step, candidates, captured, dsh_cli_command, first_install, global_dsh, help_command,
    help_mentions_no_open, install_roots, is_clean_name, npx_candidate, owner_script, plan_repair, pnpm_choice,
    pnpm_parts, port_owner, relaunch_command, restart_step, shell_line, shim_parts, spawn_failed_line,
    unless_blank, where_first, working_dir, CommandState, CommandStep, Dsh, LaunchFacts, NoOpenCache, Once,
    RepairPlan, RestartEvent, RestartStep,
};
use dsh_desktop::logs::LogLevel;

fn some(s: &str) -> Option<String> {
    Some(s.to_string())
}

fn dsh(path: &str, no_open: bool) -> Dsh {
    Dsh { path: path.to_string(), no_open }
}

fn bare() -> LaunchFacts {
    LaunchFacts {
        dsh_cmd: None,
        cwd: "C:\\Users\\me".to_string(),
        custom: None,
        global: None,
        local: None,
        prefer_npx: false,
    }
}

#[test]
fn the_chain_is_local_first() {
    let facts = LaunchFacts {
        dsh_cmd: some("pnpm dsh web"),
        custom: Some(dsh("D:\\dsh.cmd", false)),
        global: Some(dsh("C:\\npm\\dsh.cmd", true)),
        local: Some((dsh("E:\\p\\node_modules\\.bin\\dsh.cmd", true), "E:\\p".to_string())),
        prefer_npx: true,
        ..bare()
    };
    let list = candidates(&facts);
    let seen: Vec<(&str, &str, &str, u64)> = list
        .iter()
        .map(|c| (c.label.as_str(), c.cmd.as_str(), c.cwd.as_str(), c.window))
        .collect();
    assert_eq!(
        seen,
        vec![
            ("自定义启动命令", "pnpm dsh web", "C:\\Users\\me", 120),
            ("自定义路径(D:\\dsh.cmd)", "\"D:\\dsh.cmd\" web", "C:\\Users\\me", 30),
            ("dsh web", "\"C:\\npm\\dsh.cmd\" web --no-open", "C:\\Users\\me", 30),
            ("本地安装(E:\\p)", "\"E:\\p\\node_modules\\.bin\\dsh.cmd\" web --no-open", "E:\\p", 30),
            ("npx 下载并启动", "npx --yes @deepseek-ai/dsh web", "C:\\Users\\me", 300),
        ]
    );
}

#[test]
fn nothing_is_downloaded_without_consent() {
    assert!(candidates(&bare()).is_empty());
    let blank = LaunchFacts { dsh_cmd: some("  "), ..bare() };
    assert!(candidates(&blank).is_empty());
    let agreed = LaunchFacts { prefer_npx: true, ..bare() };
    assert_eq!(candidates(&agreed).len(), 1);
    assert_eq!(npx_candidate("X").cwd, "X");
}

#[test]
fn an_override_leads_and_does_not_replace() {
    let facts = LaunchFacts { dsh_cmd: some(" my cmd "), global: Some(dsh("g", false)), ..bare() };
    let list = candidates(&facts);
    assert_eq!(list.len(), 2);
    assert_eq!(list[0].cmd, " my cmd ");
    assert_eq!(list[1].cmd, "\"g\" web");
}

#[test]
fn subcommands_use_the_first_installed() {
    let (a, b, c) = (some("a"), some("b"), some("c"));
    assert_eq!(dsh_cli_command(&a, &b, &c, "plugin add x"), some("\"a\" plugin add x"));
    assert_eq!(dsh_cli_command(&None, &b, &c, "v"), some("\"b\" v"));
    assert_eq!(dsh_cli_command(&None, &None, &c, "v"), some("\"c\" v"));
    assert_eq!(dsh_cli_command(&None, &None, &None, "v"), None);
}

#[test]
fn a_stale_working_directory_falls_back_to_the_profile() {
    assert_eq!(working_dir(&some("D:\\w"), true, &some("H")), "D:\\w");
    assert_eq!(working_dir(&some("D:\\w"), false, &some("H")), "H");
    assert_eq!(working_dir(&None, true, &some("H")), "H");
    assert_eq!(working_dir(&None, false, &None), ".");
}

#[test]
fn the_global_dsh_is_named_by_its_path() {
    assert_eq!(global_dsh(true, some("C:\\dsh.cmd")), some("C:\\dsh.cmd"));
    assert_eq!(global_dsh(true, None), some("dsh"));
    assert_eq!(global_dsh(false, some("C:\\dsh.cmd")), None);
}

#[test]
fn the_first_hit_of_where_is_taken() {
    assert_eq!(where_first(true, " C:\\a\\dsh \r\nC:\\a\\dsh.cmd\r\n"), some("C:\\a\\dsh"));
    assert_eq!(where_first(false, "C:\\a\\dsh"), None);
    assert_eq!(where_first(true, "\nC:\\a"), None);
    assert_eq!(where_first(true, ""), None);
    assert_eq!(captured(" v20.1.0\n"), some("v20.1.0"));
    assert_eq!(captured(" \n"), None);
    assert_eq!(unless_blank(&some(" x ")), some(" x "));
    assert_eq!(unless_blank(&some(" ")), None);
}

#[test]
fn command_lines_keep_their_inner_quotes() {
    assert_eq!(shell_line("\"a b\" web"), "/S /C \"\"a b\" web\"");
    assert_eq!(shell_line(&help_command("C:\\d")), "/S /C \"\"C:\\d\" web --help\"");
    assert_eq!(
        shell_line(&relaunch_command("C:\\a b\\app.exe")),
        "/S /C \"ping -n 4 127.0.0.1 >nul & start \"\" \"C:\\a b\\app.exe\"\""
    );
}

#[test]
fn a_restart_ends_only_when_armed() {
    match restart_step(&RestartEvent::Armed) {
        RestartStep::Leave { line } => {
            assert_eq!(line, "[dsh-desktop] relaunch helper armed (starts the new exe in ~3s)");
        }
        _ => panic!("stays"),
    }
    match restart_step(&RestartEvent::NotArmed { error: "no".to_string() }) {
        RestartStep::Stay { line } => assert_eq!(
            line,
            some("[dsh-desktop] relaunch helper failed (no); the new version activates on next manual launch")
        ),
        _ => panic!("leaves"),
    }
    assert!(matches!(restart_step(&RestartEvent::NoProgram), RestartStep::Stay { line: None }));
}

#[test]
fn the_owner_script_asks_for_the_process() {
    let script = owner_script(4242);
    assert!(script.starts_with("$p = Get-CimInstance Win32_Process -Filter 'ProcessId=4242'; if ($null -eq $p) { exit 1 };"));
    assert!(script.ends_with("owned = $owned } | ConvertTo-Json -Compress"));
    assert_eq!(port_owner(&some("{\"pid\":1}")).unwrap().to_text(), "{\"pid\":1}");
    assert!(port_owner(&some("oops")).is_none());
    assert!(port_owner(&None).is_none());
}

#[test]
fn the_flag_is_remembered_per_path() {
    assert!(help_mentions_no_open("", "  --no-open  do not open"));
    assert!(help_mentions_no_open("--no-open", ""));
    assert!(!help_mentions_no_open("--no-", "x"));
    let mut cache = NoOpenCache::new();
    assert_eq!(cache.lookup("a"), None);
    cache.remember("a", true);
    assert_eq!(cache.lookup("a"), Some(true));
    assert_eq!(cache.lookup("b"), None);
    cache.remember("b", false);
    assert_eq!(cache.lookup("b"), Some(false));
    assert_eq!(cache.lookup("a"), Some(true));
}

#[test]
fn installations_are_looked_for_in_order() {
    let roots = install_roots(&some("E"), &some("W"), &some("H"));
    assert_eq!(roots, vec!["E", "W", "H"]);
    assert_eq!(install_roots(&some("E"), &some("H"), &some("H")), vec!["E", "H"]);
    assert_eq!(install_roots(&some("E"), &some("E"), &None), vec!["E", "E"]);
    assert_eq!(shim_parts(), vec!["node_modules", ".bin", "dsh.cmd"]);
    assert_eq!(first_install(&vec![false, true, true]), Some(1));
    assert_eq!(first_install(&vec![false]), None);
}

#[test]
fn pnpm_is_found_on_the_path_or_beside_npm() {
    assert_eq!(pnpm_choice(some("p"), some("q"), true), some("p"));
    assert_eq!(pnpm_choice(None, some("q"), true), some("q"));
    assert_eq!(pnpm_choice(None, some("q"), false), None);
    assert_eq!(pnpm_parts(), vec!["npm", "pnpm.cmd"]);
}

#[test]
fn a_missing_package_is_installed_once() {
    let mut once = Once::new();
    match plan_repair(&mut once, "@scope/pkg-1.0_x", &some("C:\\pnpm.cmd"), "C:\\.dsh\\web", true) {
        RepairPlan::Run { line, command } => {
            assert_eq!(line, "bundle repair: pnpm add @scope/pkg-1.0_x into web profile (cooldown bypassed)");
            assert_eq!(
                command,
                "cd /d \"C:\\.dsh\\web\" && \"C:\\pnpm.cmd\" add --save-exact @scope/pkg-1.0_x --config.minimumReleaseAge=0"
            );
        }
        _ => panic!("skipped"),
    }
    match plan_repair(&mut once, "x", &some("p"), "d", true) {
        RepairPlan::Skip { line } => {
            assert_eq!(line, "[dsh-desktop] bundle repair skipped: already attempted this session");
        }
        _ => panic!("run twice"),
    }
}

#[test]
fn a_repair_is_refused_for_its_reason() {
    let skipped = |pkg: &str, pnpm: Option<String>, dir: bool| {
        match plan_repair(&mut Once::new(), pkg, &pnpm, "d", dir) {
            RepairPlan::Skip { line } => line,
            _ => panic!("run"),
        }
    };
    assert_eq!(
        skipped("a & \"b\"", some("p"), true),
        "[dsh-desktop] bundle repair skipped: odd package name \"a & \\\"b\\\"\""
    );
    assert_eq!(skipped("a", None, true), "[dsh-desktop] bundle repair skipped: pnpm not found");
    assert_eq!(skipped("a", some("p"), false), "[dsh-desktop] bundle repair skipped: web profile dir missing");
    assert!(is_clean_name("@a/b-c.d_9"));
    assert!(!is_clean_name("a b"));
    assert!(!is_clean_name("包"));
}

#[test]
fn a_thing_is_done_once() {
    let mut once = Once::new();
    assert!(!once.is_done());
    assert!(once.claim());
    assert!(!once.claim());
    assert!(once.is_done());
}

#[test]
fn a_command_is_killed_after_its_time() {
    let step = |state: CommandState| bounded_step("bundle repair", 300, &state);
    match step(CommandState::Exited { success: true, code: Some(0) }) {
        CommandStep::Done { ok, level, line } => {
            assert!(ok && level == LogLevel::Info);
            assert_eq!(line, "[dsh-desktop] bundle repair ok (exit 0)");
        }
        _ => panic!("not done"),
    }
    match step(CommandState::Exited { success: false, code: None }) {
        CommandStep::Done { ok, level, line } => {
            assert!(!ok && level == LogLevel::Warn);
            assert_eq!(line, "[dsh-desktop] bundle repair FAILED (exit -1)");
        }
        _ => panic!("not done"),
    }
    assert!(matches!(step(CommandState::Running { elapsed: 300_000_000_000 }), CommandStep::Wait));
    match step(CommandState::Running { elapsed: 300_000_000_001 }) {
        CommandStep::Kill { line } => assert_eq!(line, "[dsh-desktop] bundle repair timed out (300s, killed)"),
        _ => panic!("not killed"),
    }
    match step(CommandState::Unknown { error: "e".to_string() }) {
        CommandStep::Done { ok, line, .. } => {
            assert!(!ok);
            assert_eq!(line, "[dsh-desktop] bundle repair wait failed: e");
        }
        _ => panic!("not done"),
    }
    assert_eq!(spawn_failed_line("w", "c"), "[dsh-desktop] w spawn failed: c");
    assert_eq!(format!("{:?}", std::time::Duration::from_secs(300)), "300s");
}
