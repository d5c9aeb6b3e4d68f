use dsh_desktop::json::Json;
use dsh_desktop::logs::{
    archive_name, archives_to_remove, attempt_header, bundle_answer, bundle_name, diagnostic_bundle, is_archive,
    log_line, log_tail, pane_lines, session_banner, Archive, LogLevel, Moment, ARCHIVE_AGE,
};

fn moment() -> Moment {
    Moment { year: 2026, month: 8, day: 18, hour: 9, minute: 5, second: 3, millis: 7 }
}

#[test]
fn times_are_padded() {
    let m = moment();
    assert_eq!(m.date(), "2026-08-18");
    assert_eq!(m.time(), "09:05:03");
    assert_eq!(m.stamp(), "2026-08-18T09-05-03-007");
    assert_eq!(archive_name(&m), "dsh.log_2026-08-18T09-05-03-007.log");
    assert_eq!(bundle_name(&m), "diagnostics-2026-08-18T09-05-03-007.md");
}

#[test]
fn lines_carry_time_and_level() {
    assert_eq!(log_line(&moment(), LogLevel::Info, "hi"), "[2026-08-18 09:05:03] [INFO] hi");
    assert_eq!(log_line(&moment(), LogLevel::Warn, ""), "[2026-08-18 09:05:03] [WARN] ");
    assert_eq!(LogLevel::Error.tag(), "ERROR");
    assert_eq!(attempt_header("dsh web"), "===== 启动尝试: dsh web =====");
}

#[test]
fn a_session_opens_with_its_banner() {
    assert_eq!(
        session_banner(&moment(), "1.2.3", "C:\\a.exe", "C:\\logs"),
        vec!["** dsh-desktop session: 2026-08-18 09:05:03", "** app: v1.2.3 (C:\\a.exe)", "** log dir: C:\\logs"]
    );
}

#[test]
fn the_tail_of_the_log_is_its_last_lines() {
    let log = "a\nb\r\nc\n";
    assert_eq!(log_tail(log, 2), vec!["b", "c"]);
    assert_eq!(log_tail(log, 9), vec!["a", "b", "c"]);
    assert!(log_tail(log, 0).is_empty());
    assert!(log_tail("", 5).is_empty());
    assert_eq!((pane_lines(1), pane_lines(50), pane_lines(999), pane_lines(5000)), (50, 50, 999, 1000));
}

fn archive(name: &str, age: Option<u128>) -> Archive {
    Archive { name: name.to_string(), age }
}

#[test]
fn old_archives_are_removed() {
    let list = vec![
        archive("dsh.log_a", Some(ARCHIVE_AGE)),
        archive("dsh.log_b", Some(ARCHIVE_AGE + 1)),
        archive("dsh.log_c", None),
    ];
    assert_eq!(archives_to_remove(&list), vec![1]);
    assert!(is_archive("dsh.log_x"));
    assert!(!is_archive("dsh.log"));
}

#[test]
fn the_twenty_newest_archives_stay() {
    let mut list = Vec::new();
    for i in (0..25).rev() {
        list.push(archive(&format!("dsh.log_2026-08-{:02}T", i), Some(0)));
    }
    list.push(archive("dsh.log_9999", Some(ARCHIVE_AGE * 2)));
    let gone = archives_to_remove(&list);
    assert_eq!(gone, vec![20, 21, 22, 23, 24, 25]);
    let mut names: Vec<String> = list.iter().map(|a| a.name.clone()).filter(|n| n != "dsh.log_9999").collect();
    names.sort();
    for i in &gone[..5] {
        assert!(names[..5].contains(&list[*i].name));
    }
}

#[test]
fn shorter_names_come_first() {
    let mut list: Vec<Archive> = (0..20).map(|i| archive(&format!("dsh.log_b{:02}", i), None)).collect();
    list.push(archive("dsh.log_", None));
    assert_eq!(archives_to_remove(&list), vec![20]);
    assert!(archives_to_remove(&Vec::new()).is_empty());
}

#[test]
fn the_bundle_holds_report_and_log() {
    let info = Json::object().with("a", Json::Bool(true));
    let text = diagnostic_bundle(&moment(), "1.0", "X", "L", &info, &Some("line".to_string()));
    assert_eq!(
        text,
        "# DSH Desktop 诊断包\n\n- 生成时间: 2026-08-18 09:05:03\n- 应用: v1.0 (X)\n- 日志目录: L\n\n## 环境配置 (env_info)\n\n```json\n{\n  \"a\": true\n}\n```\n\n## 本次会话日志 (dsh.log,仅壳事件)\n\n~~~text\nline\n~~~\n"
    );
    let unread = diagnostic_bundle(&moment(), "1.0", "X", "L", &info, &None);
    assert!(unread.ends_with("~~~text\n(读取失败)\n~~~\n"));
    assert_eq!(bundle_answer("p", "d", "c").to_text(), "{\"content\":\"c\",\"dir\":\"d\",\"path\":\"p\"}");
}
