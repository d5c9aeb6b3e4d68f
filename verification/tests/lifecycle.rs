use dsh_desktop::console::ChildTail;
use dsh_desktop::launch::Once;
use dsh_desktop::lifecycle::{
    early_exit_line, exit_line, failure_text, first_step, give_up_line, heal_outcome, is_answering,
    keep_waiting, last_words_line, navigate_step, plan_heal, reload_step, repaired_line, status_error,
    status_notfound, status_ready, status_starting, text_to_write, wall_shown, wall_to_check, wants_backup, AfterExit, ChildState, DshState,
    FirstStep, Lifecycle, NavStep, ProbeAnswer, ReloadStep, StartRun, StartStep, Trial, TrialAction, TrialEvent, WallAction,
    WallCheck, WallEvent, READY_REPEATS, WALL_QUESTION, WALL_TITLE,
};
use dsh_desktop::logs::LogLevel;
use dsh_desktop::yaml::Heal;

const SECOND: u128 = 1_000_000_000;

fn some(s: &str) -> Option<String> {
    Some(s.to_string())
}

fn printed(lines: &[&str]) -> ChildTail {
    let mut tail = ChildTail::new();
    for l in lines {
        tail.push(l.to_string());
    }
    tail
}

#[test]
fn the_boot_page_is_told_how_things_stand() {
    assert_eq!(status_starting("dsh web").to_text(), "{\"method\":\"dsh web\",\"status\":\"starting\"}");
    assert_eq!(status_ready(true, &None).to_text(), "{\"attached\":true,\"status\":\"ready\"}");
    assert_eq!(
        status_ready(false, &some("m")).to_text(),
        "{\"attached\":false,\"method\":\"m\",\"status\":\"ready\"}"
    );
    assert_eq!(status_error("e").to_text(), "{\"message\":\"e\",\"status\":\"error\"}");
    assert_eq!(status_notfound().to_text(), "{\"status\":\"notfound\"}");
}

#[test]
fn a_reloaded_page_is_told_within_five_tries() {
    let state = DshState::new();
    for tries in 0..5 {
        match reload_step(tries, true, &state) {
            ReloadStep::Tell { payload } => assert_eq!(
                payload.to_text(),
                "{\"attached\":true,\"method\":\"页面重载\",\"status\":\"ready\"}"
            ),
            _ => panic!("not told"),
        }
    }
    assert!(matches!(reload_step(3, false, &state), ReloadStep::Wait));
    assert!(matches!(reload_step(4, false, &state), ReloadStep::Stop));
    assert!(matches!(reload_step(5, true, &state), ReloadStep::Stop));
    assert!(matches!(reload_step(u32::MAX, false, &state), ReloadStep::Stop));
    assert_eq!(READY_REPEATS, 10);
}

#[test]
fn an_attached_instance_is_left_alone() {
    let mut life = Lifecycle::new();
    assert!(life.state().is_attached());
    assert_eq!(life.teardown(), None);
    assert!(matches!(first_step(true), FirstStep::Attach));
    assert!(matches!(first_step(false), FirstStep::Launch));
}

#[test]
fn only_what_was_started_is_torn_down() {
    let mut life = Lifecycle::new();
    life.adopt(42);
    assert!(!life.state().is_attached());
    assert_eq!(life.teardown(), Some(42));
    assert_eq!(life.teardown(), None);
    life.adopt(1);
    life.adopt(2);
    assert_eq!(life.teardown(), Some(2));
}

#[test]
fn an_intended_stop_is_quiet() {
    let mut life = Lifecycle::new();
    life.adopt(1);
    life.teardown();
    assert!(matches!(life.child_exited(0, "x"), AfterExit::Quiet));
}

#[test]
fn three_young_deaths_end_the_restarts() {
    let mut life = Lifecycle::new();
    for _ in 0..2 {
        life.adopt(1);
        assert!(matches!(life.child_exited(30 * SECOND - 1, "x"), AfterExit::Restart));
    }
    life.adopt(1);
    match life.child_exited(5, "boom") {
        AfterExit::GiveUp { message } => assert_eq!(
            message,
            "DSH 反复意外退出,已停止自动重启\n最近输出: boom\n完整日志:面板→日志,或 %LOCALAPPDATA%\\dsh-desktop\\dsh.log;可用托盘「重启 dsh web(后端)」重试"
        ),
        _ => panic!("restarted"),
    }
    match life.child_exited(5, "") {
        AfterExit::GiveUp { message } => assert!(message.starts_with("DSH 反复意外退出,已停止自动重启\n完整日志")),
        _ => panic!("restarted"),
    }
}

#[test]
fn a_long_life_clears_the_count() {
    let mut life = Lifecycle::new();
    life.adopt(1);
    life.child_exited(0, "");
    life.child_exited(0, "");
    assert!(matches!(life.child_exited(30 * SECOND, ""), AfterExit::Restart));
    assert!(matches!(life.child_exited(0, ""), AfterExit::Restart));
    assert!(matches!(life.child_exited(0, ""), AfterExit::Restart));
    assert!(matches!(life.child_exited(0, ""), AfterExit::GiveUp { .. }));
}

#[test]
fn a_streak_counts_only_unexpected_deaths() {
    let mut life = Lifecycle::new();
    life.adopt(1);
    assert!(matches!(life.child_exited(0, ""), AfterExit::Restart));
    life.adopt(2);
    life.teardown();
    assert!(matches!(life.child_exited(0, ""), AfterExit::Quiet));
    life.adopt(3);
    assert!(matches!(life.child_exited(0, ""), AfterExit::Restart));
    life.adopt(4);
    assert!(matches!(life.child_exited(0, ""), AfterExit::GiveUp { .. }));
}

#[test]
fn exits_are_logged() {
    assert_eq!(exit_line(7), "supervised dsh web (pid 7) exited unexpectedly; healing");
    assert_eq!(give_up_line(7), "supervised dsh web (pid 7) crashed 3x quickly; auto-respawn stopped");
    assert_eq!(last_words_line("x"), some("[child] x"));
    assert_eq!(last_words_line(""), None);
}

#[test]
fn a_server_that_refuses_is_up() {
    assert!(is_answering(&ProbeAnswer::Served));
    assert!(is_answering(&ProbeAnswer::Refused { status: 403 }));
    assert!(!is_answering(&ProbeAnswer::Unreachable));
    assert!(keep_waiting(true, 10 * SECOND - 1));
    assert!(!keep_waiting(true, 10 * SECOND));
    assert!(!keep_waiting(false, 0));
}

#[test]
fn candidates_are_tried_once_and_in_order() {
    let mut run = StartRun::new(vec!["a".to_string(), "b".to_string()]);
    assert!(matches!(run.next(), StartStep::Try { index: 0 }));
    run.failed("r1\n");
    assert!(matches!(run.next(), StartStep::Try { index: 1 }));
    run.failed("r2");
    match run.next() {
        StartStep::Failed { message } => assert_eq!(message, "所有启动方式均失败:\n「a」r1\n\n「b」r2"),
        _ => panic!("not failed"),
    }
    assert!(matches!(StartRun::new(Vec::new()).next(), StartStep::NotFound));
    assert_eq!(failure_text("a", "r"), "「a」r");
}

fn poll(answering: bool, child: ChildState, elapsed: u128) -> TrialEvent {
    TrialEvent::Polled { answering, child, elapsed }
}

fn exited() -> ChildState {
    ChildState::Exited { status: "exit code: 1".to_string() }
}

fn started(window: u64) -> Trial {
    let (t, a) = Trial::new(window).step(TrialEvent::Spawned, &ChildTail::new()).unwrap();
    assert!(matches!(a, TrialAction::Poll));
    t
}

fn reason(a: TrialAction) -> String {
    match a {
        TrialAction::Fail { reason } => reason,
        _ => panic!("not failed"),
    }
}

#[test]
fn a_ready_process_is_adopted() {
    let none = ChildTail::new();
    let (t, a) = started(30).step(poll(false, ChildState::Running, 0), &none).unwrap();
    assert!(matches!(a, TrialAction::Sleep));
    let (t, a) = t.step(poll(true, exited(), u128::MAX), &none).unwrap();
    assert!(matches!(a, TrialAction::Adopt));
    assert!(t.step(TrialEvent::Spawned, &none).is_none());
}

#[test]
fn a_process_that_cannot_start_fails() {
    let none = ChildTail::new();
    let (_, a) = Trial::new(1).step(TrialEvent::NotSpawned { error: "os error 267".to_string() }, &none).unwrap();
    assert_eq!(reason(a), "无法启动(os error 267)\n");
    let (_, a) = started(1).step(poll(false, ChildState::Unknown { error: "e".to_string() }, 0), &none).unwrap();
    assert_eq!(reason(a), "无法查询子进程(e)\n");
}

#[test]
fn a_slow_process_is_killed() {
    let tail = printed(&["1", "2", "3", "4", "5"]);
    let (t, a) = started(30).step(poll(false, ChildState::Running, 30 * SECOND), &tail).unwrap();
    assert!(matches!(a, TrialAction::Kill));
    let (_, a) = t.step(TrialEvent::Killed, &tail).unwrap();
    assert_eq!(reason(a), "就绪超时,最后输出: 2 ⏎ 3 ⏎ 4 ⏎ 5\n");
    let (t, _) = started(0).step(poll(false, ChildState::Running, 0), &tail).unwrap();
    let (_, a) = t.step(TrialEvent::Killed, &ChildTail::new()).unwrap();
    assert_eq!(reason(a), "就绪超时\n");
}

#[test]
fn an_early_exit_is_healed_once() {
    let tail = printed(&["bad yaml"]);
    let (t, a) = started(30).step(poll(false, exited(), 0), &tail).unwrap();
    assert!(matches!(a, TrialAction::Heal));
    let (t, a) = t.step(TrialEvent::Healed { mended: true }, &tail).unwrap();
    assert!(matches!(a, TrialAction::Spawn));
    assert!(t.is_second());
    let (t, _) = t.step(TrialEvent::Spawned, &tail).unwrap();
    let (_, a) = t.step(poll(false, exited(), 0), &tail).unwrap();
    assert_eq!(reason(a), "进程提前退出(exit code: 1)\nbad yaml\n");
}

#[test]
fn a_missing_package_is_repaired_once() {
    let tail = printed(&["x", "cannot resolve profile bundle \"pkg\""]);
    let (t, _) = started(30).step(poll(false, exited(), 0), &tail).unwrap();
    let (t, a) = t.step(TrialEvent::Healed { mended: false }, &tail).unwrap();
    match a {
        TrialAction::Repair { pkg } => assert_eq!(pkg, "pkg"),
        _ => panic!("not repaired"),
    }
    let (_, a) = t.step(TrialEvent::Repaired { installed: true }, &tail).unwrap();
    assert!(matches!(a, TrialAction::Spawn));
}

#[test]
fn a_failed_repair_is_explained() {
    let tail = printed(&["cannot resolve profile bundle \"pkg\""]);
    let (t, _) = started(30).step(poll(false, exited(), 0), &tail).unwrap();
    let (t, _) = t.step(TrialEvent::Healed { mended: false }, &tail).unwrap();
    let (_, a) = t.step(TrialEvent::Repaired { installed: false }, &tail).unwrap();
    assert_eq!(
        reason(a),
        "进程提前退出(exit code: 1)——缺少 profile 包 pkg(疑似 pnpm 新发布冷却期拦截)\n手动修复:在 %USERPROFILE%\\.dsh\\profiles\\web 执行 pnpm add --save-exact pkg --config.minimumReleaseAge=0\n完整日志:面板→日志,或 %LOCALAPPDATA%\\dsh-desktop\\dsh.log\ncannot resolve profile bundle \"pkg\""
    );
}

#[test]
fn a_silent_early_exit_says_so() {
    let none = ChildTail::new();
    let (t, _) = started(30).step(poll(false, exited(), 0), &none).unwrap();
    let (_, a) = t.step(TrialEvent::Healed { mended: false }, &none).unwrap();
    assert_eq!(reason(a), "进程提前退出(exit code: 1)\n");
    assert_eq!(early_exit_line("s", &none), None);
    assert_eq!(
        early_exit_line("s", &printed(&["a", "b"])),
        some("candidate died early (s); last output: a ⏎ b")
    );
    assert_eq!(repaired_line("p"), "bundle repair installed p; retrying the same candidate");
}

#[test]
fn the_settings_are_looked_at_once() {
    let mut once = Once::new();
    assert!(matches!(plan_heal(&mut once, &some("a:\n  b:c\n  d: e\n")), Heal::Repaired(_)));
    assert!(matches!(plan_heal(&mut once, &some("a:\n  b:c\n  d: e\n")), Heal::Healthy));
    let mut unread = Once::new();
    assert!(matches!(plan_heal(&mut unread, &None), Heal::Healthy));
    assert!(unread.is_done());
}

#[test]
fn mended_settings_are_logged() {
    let (ok, note) = heal_outcome(&Heal::Healthy, &None, &None, "p", "b");
    assert!(!ok && note.is_none());
    let (ok, note) = heal_outcome(&Heal::Hopeless, &None, &None, "p", "b");
    let note = note.unwrap();
    assert!(!ok && note.level == LogLevel::Error);
    assert_eq!(
        note.line,
        "[dsh-desktop] settings.yaml 解析失败且冒号空格修复无效;手动编辑 p 保证每个 key: 后有空格(原文件已备份 b)"
    );
    let fixed = Heal::Repaired("t".to_string());
    let (ok, note) = heal_outcome(&fixed, &None, &None, "p", "b");
    let note = note.unwrap();
    assert!(ok && note.level == LogLevel::Warn);
    assert_eq!(
        note.line,
        "[dsh-desktop] settings.yaml 自动修复:为缺失空格的 key: 补空格(疑似 Web UI 序列化器缺陷,建议反馈);原文件备份 b"
    );
    let (ok, note) = heal_outcome(&fixed, &None, &some("denied"), "p", "b");
    assert!(!ok);
    assert_eq!(note.unwrap().line, "[dsh-desktop] settings.yaml 修复写入失败:denied");
}

#[test]
fn settings_are_rewritten_only_after_a_backup() {
    let fixed = Heal::Repaired("t".to_string());
    assert_eq!(text_to_write(&fixed, &None), some("t"));
    assert_eq!(text_to_write(&fixed, &some("disk full")), None);
    assert_eq!(text_to_write(&Heal::Hopeless, &None), None);
    assert_eq!(text_to_write(&Heal::Healthy, &None), None);
    assert!(wants_backup(&fixed) && wants_backup(&Heal::Hopeless) && !wants_backup(&Heal::Healthy));
    let (ok, note) = heal_outcome(&fixed, &some("disk full"), &None, "p", "b");
    assert!(!ok);
    assert_eq!(note.unwrap().line, "[dsh-desktop] settings.yaml 修复写入失败:disk full");
}

fn address(step: NavStep) -> Option<String> {
    match step {
        NavStep::Go { url } => Some(url),
        NavStep::Wait => None,
    }
}

#[test]
fn the_webchat_is_shown_with_its_token() {
    let tail = printed(&["dsh web: http://127.0.0.1:3080/?token=abc"]);
    assert_eq!(address(navigate_step(true, 0, &tail)), some("http://127.0.0.1:3080/?token=abc"));
    assert_eq!(address(navigate_step(false, 0, &tail)), some("http://127.0.0.1:3080"));
    let none = ChildTail::new();
    assert_eq!(address(navigate_step(true, 4, &none)), None);
    assert_eq!(address(navigate_step(true, 5, &none)), some("http://127.0.0.1:3080"));
}

fn wall_page() -> WallEvent {
    WallEvent::Looked { title: "__DSH_AUTH_WALL__".to_string(), url: String::new() }
}

#[test]
fn the_user_decides_at_the_wall() {
    let life = Lifecycle::new();
    for yes in [true, false] {
        let mut asked = Once::new();
        let mut check = WallCheck::new();
        assert!(matches!(check.step(&WallEvent::Loaded, life.state(), &mut asked), WallAction::Look));
        assert!(!asked.is_done());
        assert!(matches!(check.step(&wall_page(), life.state(), &mut asked), WallAction::Ask));
        assert!(asked.is_done());
        match check.step(&WallEvent::Answered { yes }, life.state(), &mut asked) {
            WallAction::TakeOver => assert!(yes),
            WallAction::Leave => assert!(!yes),
            _ => panic!("the answer is ignored"),
        }
        assert!(matches!(check.step(&wall_page(), life.state(), &mut asked), WallAction::Stop));
    }
    assert_eq!(WALL_TITLE, "DSH 需要浏览器认证");
    assert_eq!(
        WALL_QUESTION,
        [
            "检测到 DSH 需要浏览器令牌(新版本认证),但当前实例不是本应用启动的,无法获取令牌。\n\n",
            "「是」重启 dsh web 宿主(由本应用接管,自动完成认证)\n",
            "「否」退出本应用(保留当前 DSH 实例)",
        ]
        .concat()
    );
}

#[test]
fn the_user_is_asked_at_the_wall_once() {
    let mut life = Lifecycle::new();
    let mut asked = Once::new();
    let mut one = WallCheck::new();
    let mut two = WallCheck::new();
    assert!(matches!(one.step(&WallEvent::Loaded, life.state(), &mut asked), WallAction::Look));
    assert!(matches!(two.step(&WallEvent::Loaded, life.state(), &mut asked), WallAction::Look));
    assert!(matches!(one.step(&wall_page(), life.state(), &mut asked), WallAction::Ask));
    assert!(matches!(two.step(&wall_page(), life.state(), &mut asked), WallAction::Stop));
    assert!(matches!(two.step(&WallEvent::Answered { yes: false }, life.state(), &mut asked), WallAction::Stop));
    assert!(matches!(WallCheck::new().step(&WallEvent::Loaded, life.state(), &mut asked), WallAction::Stop));
    let mut fresh = Once::new();
    let mut clean = WallCheck::new();
    clean.step(&WallEvent::Loaded, life.state(), &mut fresh);
    let page = WallEvent::Looked { title: "DSH".to_string(), url: "http://127.0.0.1:3080/".to_string() };
    assert!(matches!(clean.step(&page, life.state(), &mut fresh), WallAction::Stop));
    assert!(!fresh.is_done());
    life.adopt(1);
    assert!(matches!(WallCheck::new().step(&WallEvent::Loaded, life.state(), &mut fresh), WallAction::Stop));
}

#[test]
fn the_wall_is_looked_for_only_when_attached() {
    let mut life = Lifecycle::new();
    let mut asked = Once::new();
    assert!(wall_to_check(life.state(), &asked));
    asked.claim();
    assert!(!wall_to_check(life.state(), &asked));
    life.adopt(1);
    assert!(!wall_to_check(life.state(), &Once::new()));
    assert!(wall_shown("x __DSH_AUTH_WALL__", ""));
    assert!(wall_shown("", "http://127.0.0.1:3080/#dsh-shell-auth-wall"));
    assert!(!wall_shown("DSH", "http://127.0.0.1:3080/"));
}
