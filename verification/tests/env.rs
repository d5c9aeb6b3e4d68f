use dsh_desktop::env::{
    centered, dsh_home, env_info, manifest_path, page_loaded, plain_path, profile_plugin_versions, said_yes,
    shell_data_dir, tally_sizes, tray_entry, web_profile, workspace_dir, EnvFacts, Frame, PathPlan, Tally,
    TrayEntry,
};
use dsh_desktop::json::Json;

fn some(s: &str) -> Option<String> {
    Some(s.to_string())
}

fn path(p: PathPlan) -> String {
    let mut out = p.root;
    for part in p.parts {
        out.push('/');
        out.push_str(&part);
    }
    out
}

#[test]
fn the_shell_keeps_its_data_beside_the_program() {
    assert_eq!(path(shell_data_dir(&some("D:\\data"), &some("E"), &some("L"))), "D:\\data");
    assert_eq!(path(shell_data_dir(&some(" "), &some("E"), &some("L"))), "E/dsh-shell-data");
    assert_eq!(path(shell_data_dir(&None, &None, &some("L"))), "L/dsh-shell-data");
    assert_eq!(path(shell_data_dir(&None, &None, &None)), "./dsh-shell-data");
}

#[test]
fn a_moved_dsh_home_is_honoured() {
    assert_eq!(path(dsh_home(&some("D:\\.dsh"), &some("H"))), "D:\\.dsh");
    assert_eq!(path(dsh_home(&some(""), &some("H"))), "H/.dsh");
    assert_eq!(path(dsh_home(&None, &None)), ".dsh");
    assert_eq!(path(web_profile(dsh_home(&None, &some("H")))), "H/.dsh/profiles/web");
    assert_eq!(
        path(manifest_path(dsh_home(&None, &some("H")), "dshmarket")),
        "H/.dsh/profiles/web/node_modules/dshmarket/package.json"
    );
}

#[test]
fn sizes_are_counted_up_to_a_bound() {
    assert_eq!(tally_sizes(&vec![1, 2, 3]), Some(6));
    assert_eq!(tally_sizes(&vec![1; 60_000]), Some(50_000));
    assert_eq!(tally_sizes(&vec![u64::MAX, 1]), None);
    let mut t = Tally::new();
    for _ in 0..50_000 {
        t = t.count(2).unwrap();
    }
    assert!(t.is_full());
    t = t.count(u64::MAX).unwrap();
    assert_eq!(t.bytes(), 100_000);
    assert!(Tally::new().count(u64::MAX).unwrap().count(1).is_none());
}

fn facts() -> EnvFacts {
    EnvFacts {
        version: "1.0".to_string(),
        install_dir: None,
        answering: false,
        owner: None,
        dsh_cmd: None,
        dsh_cwd: None,
        dsh_cwd_is_dir: false,
        settings: Json::object(),
        where_dsh: None,
        local_install: None,
        node_path: None,
        node_version: None,
        desktop_manifest: None,
        market_manifest: None,
        profile_dir: "P".to_string(),
        log_dir: None,
        user_profile: None,
        profile_size: None,
        log: None,
    }
}

#[test]
fn what_is_unknown_is_null() {
    assert_eq!(
        env_info(facts()).to_text(),
        "{\"app\":{\"installDir\":null,\"version\":\"1.0\"},\"cacheDir\":null,\"dsh\":{\"customPath\":null,\"dshCmd\":null,\"dshCwd\":null,\"localInstall\":null,\"owner\":null,\"portAnswering\":false,\"preferNpx\":false,\"whereDsh\":null},\"logDir\":null,\"logTail\":[],\"node\":{\"path\":null,\"version\":null},\"plugins\":{\"dshDesktopPlugin\":null,\"dshmarket\":null},\"profileDir\":\"P\",\"profileSizeBytes\":null,\"workspaceDir\":null}"
    );
}

#[test]
fn what_is_known_is_reported() {
    let log: String = (0..30).map(|i| format!("l{i}\n")).collect();
    let j = env_info(EnvFacts {
        install_dir: some("I"),
        answering: true,
        owner: Json::parse("{\"pid\":7}"),
        dsh_cmd: some("c"),
        dsh_cwd: some("w"),
        dsh_cwd_is_dir: true,
        settings: Json::parse("{\"preferNpx\":true,\"customDshPath\":\"x\"}").unwrap(),
        where_dsh: some("wd"),
        local_install: Some(("s".to_string(), "r".to_string())),
        node_path: some("n"),
        node_version: some("v20"),
        desktop_manifest: some("{\"version\":\"2.0\"}"),
        market_manifest: some("broken"),
        log_dir: some("ld"),
        user_profile: some("up"),
        profile_size: Some(123),
        log: Some(log),
        ..facts()
    });
    assert_eq!(
        j.get("dsh").unwrap().to_text(),
        "{\"customPath\":\"x\",\"dshCmd\":\"c\",\"dshCwd\":\"w\",\"localInstall\":{\"root\":\"r\",\"shim\":\"s\"},\"owner\":{\"pid\":7},\"portAnswering\":true,\"preferNpx\":true,\"whereDsh\":\"wd\"}"
    );
    assert_eq!(j.get("plugins").unwrap().to_text(), "{\"dshDesktopPlugin\":\"2.0\",\"dshmarket\":null}");
    assert_eq!(j.get_str("workspaceDir"), some("w"));
    assert_eq!(j.get("profileSizeBytes").unwrap().to_text(), "123");
    let tail = j.get("logTail").unwrap().to_text();
    assert!(tail.starts_with("[\"l5\",\"l6\"") && tail.ends_with("\"l29\"]"));
}

#[test]
fn plugins_report_their_versions() {
    let v = profile_plugin_versions(&some("{\"version\":\"1\"}"), &some("{}"));
    assert_eq!(v.to_text(), "{\"dshDesktopPlugin\":\"1\",\"dshmarket\":null}");
}

#[test]
fn the_workspace_is_where_dsh_runs() {
    assert_eq!(workspace_dir(&some("w"), true, &some("p")), some("w"));
    assert_eq!(workspace_dir(&some("w"), false, &some("p")), some("p"));
    assert_eq!(workspace_dir(&None, true, &some("p")), some("p"));
    assert_eq!(workspace_dir(&None, false, &some("")), None);
    assert_eq!(workspace_dir(&some("w"), false, &None), None);
    let stale = env_info(EnvFacts { dsh_cwd: some("gone"), user_profile: some("p"), ..facts() });
    assert_eq!(stale.get_str("workspaceDir"), some("p"));
    assert_eq!(stale.get("dsh").unwrap().get_str("dshCwd"), some("gone"));
}

#[test]
fn loaded_pages_are_told_apart() {
    let p = page_loaded("http://127.0.0.1:3080/?token=x");
    assert!(p.check_wall && p.announce && !p.remember);
    let p = page_loaded("http://tauri.localhost/index.html");
    assert!(!p.check_wall && p.announce && p.remember);
    let p = page_loaded("about:blank");
    assert!(!p.check_wall && !p.announce && !p.remember);
}

#[test]
fn tray_entries_are_found_by_their_names() {
    let all = [
        TrayEntry::Open,
        TrayEntry::Restart,
        TrayEntry::RestartApp,
        TrayEntry::Env,
        TrayEntry::CheckUpdate,
        TrayEntry::Quit,
    ];
    for e in all {
        assert_eq!(tray_entry(e.id()), Some(e));
    }
    assert_eq!(tray_entry("exit"), None);
    assert_eq!(TrayEntry::Quit.label(), "退出壳(DSH 保持运行)");
}

#[test]
fn only_yes_is_yes() {
    assert!(said_yes(6));
    assert!(!said_yes(7) && !said_yes(2) && !said_yes(0));
}

#[test]
fn a_verbatim_prefix_is_taken_off() {
    assert_eq!(plain_path("\\\\?\\C:\\a.exe"), "C:\\a.exe");
    assert_eq!(plain_path("C:\\a.exe"), "C:\\a.exe");
}

fn frame(left: i32, top: i32, right: i32, bottom: i32) -> Frame {
    Frame { left, top, right, bottom }
}

#[test]
fn dialogs_are_centered_on_their_owner() {
    assert_eq!(centered(frame(100, 200, 1100, 900), frame(0, 0, 301, 101)), Some((449, 499)));
    assert_eq!(centered(frame(0, 0, 100, 100), frame(0, 0, 301, 301)), Some((-100, -100)));
    assert_eq!(centered(frame(0, 0, 0, 100), frame(0, 0, 10, 10)), None);
    assert_eq!(centered(frame(i32::MIN, 0, i32::MIN + 1, 1), frame(0, 0, i32::MAX, 1)), None);
}
