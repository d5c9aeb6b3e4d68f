use dsh_desktop::json::Json;
use dsh_desktop::monitor::{
    finished_notice, opens_window, resolve_session_title, session_list_request, session_to_announce, Backoff,
    Baseline,
};

fn status(id: &str, running: bool) -> String {
    format!(
        "{{\"type\":\"server-request\",\"rpcId\":\"1\",\"payload\":{{\"type\":\"host/session-status\",\"sessionId\":\"{id}\",\"running\":{running}}}}}"
    )
}

fn other(kind: &str, id: &str) -> String {
    format!("{{\"type\":\"server-request\",\"payload\":{{\"type\":\"{kind}\",\"sessionId\":\"{id}\"}}}}")
}

#[test]
fn only_the_edge_from_running_to_idle_counts() {
    let mut b = Baseline::new();
    assert_eq!(b.handle_frame(&status("a", false)), None);
    assert_eq!(b.handle_frame(&status("a", true)), None);
    assert_eq!(b.handle_frame(&status("a", true)), None);
    assert_eq!(b.handle_frame(&status("a", false)), Some("a".to_string()));
    assert_eq!(b.handle_frame(&status("a", false)), None);
}

#[test]
fn the_first_wave_announces_nothing() {
    let mut b = Baseline::new();
    assert_eq!(b.handle_frame(&status("a", false)), None);
    assert_eq!(b.handle_frame(&status("b", true)), None);
    b.clear();
    assert_eq!(b.handle_frame(&status("b", false)), None);
}

#[test]
fn added_and_removed_sessions_start_afresh() {
    let mut b = Baseline::new();
    b.handle_frame(&status("a", true));
    b.handle_frame(&other("host/session-added", "a"));
    assert_eq!(b.handle_frame(&status("a", false)), None);
    b.handle_frame(&status("a", true));
    b.handle_frame(&other("host/session-removed", "a"));
    assert_eq!(b.handle_frame(&status("a", false)), None);
}

#[test]
fn sessions_are_told_apart() {
    let mut b = Baseline::new();
    b.handle_frame(&status("a", true));
    b.handle_frame(&status("b", true));
    assert_eq!(b.handle_frame(&status("b", false)), Some("b".to_string()));
    assert_eq!(b.handle_frame(&status("a", false)), Some("a".to_string()));
}

#[test]
fn other_frames_are_ignored() {
    let mut b = Baseline::new();
    b.handle_frame(&status("a", true));
    for text in [
        "nonsense".to_string(),
        "{\"type\":\"client-request\",\"payload\":{\"type\":\"host/session-status\",\"sessionId\":\"a\",\"running\":false}}".to_string(),
        "{\"type\":\"server-request\"}".to_string(),
        "{\"type\":\"server-request\",\"payload\":{\"type\":\"host/session-status\",\"sessionId\":\"a\"}}".to_string(),
        "{\"type\":\"server-request\",\"payload\":{\"type\":\"host/session-status\",\"running\":false}}".to_string(),
        other("host/other", "a"),
    ] {
        assert_eq!(b.handle_frame(&text), None);
    }
    assert_eq!(b.handle_frame(&status("a", false)), Some("a".to_string()));
}

#[test]
fn pauses_grow_up_to_the_cap() {
    let mut b = Backoff::new();
    let pauses: Vec<u64> = (0..7).map(|_| b.pause(false)).collect();
    assert_eq!(pauses, vec![500, 1000, 2000, 4000, 8000, 8000, 8000]);
    assert_eq!(b.pause(true), 500);
    assert_eq!(b.pause(false), 500);
    assert_eq!(b.pause(false), 1000);
    let mut worn = Backoff { attempt: u32::MAX };
    assert_eq!(worn.pause(false), 8000);
}

#[test]
fn the_title_is_that_of_the_first_session_of_the_id() {
    let answer = "{\"result\":{\"value\":{\"items\":[{\"sessionId\":\"x\"},{\"sessionId\":\"a\",\"projections\":{\"values\":{\"title\":\"写代码\"}}},{\"sessionId\":\"a\",\"projections\":{\"values\":{\"title\":\"second\"}}}]}}}";
    assert_eq!(resolve_session_title(answer, "a"), Some("写代码".to_string()));
    assert_eq!(resolve_session_title(answer, "x"), None);
    assert_eq!(resolve_session_title(answer, "y"), None);
    assert_eq!(resolve_session_title("{\"result\":{}}", "a"), None);
    assert_eq!(resolve_session_title("?", "a"), None);
}

#[test]
fn the_request_for_the_sessions_has_a_fresh_id() {
    let first = session_list_request();
    let second = session_list_request();
    assert_ne!(first, second);
    let j = Json::parse(&first).unwrap();
    assert_eq!(j.get_str("type"), Some("client-request".to_string()));
    assert_eq!(j.get_str("method"), Some("session.list".to_string()));
    assert_eq!(j.get("payload").unwrap().to_text(), "{}");
    let id = j.get_str("rpcId").unwrap();
    assert_eq!(id.len(), 36);
    for (i, c) in id.chars().enumerate() {
        if [8, 13, 18, 23].contains(&i) {
            assert_eq!(c, '-');
        } else {
            assert!(c.is_ascii_digit() || ('a'..='f').contains(&c));
        }
    }
    assert_eq!(id.chars().nth(14), Some('4'));
    assert!("89ab".contains(id.chars().nth(19).unwrap()));
}

#[test]
fn a_finished_session_is_announced_while_the_window_is_hidden() {
    let id = Some("a".to_string());
    assert_eq!(session_to_announce(id.clone(), false), id);
    assert_eq!(session_to_announce(id, true), None);
    assert_eq!(session_to_announce(None, false), None);
    assert_eq!(finished_notice(&Some("写代码".to_string())), "任务已完成:写代码");
    assert_eq!(finished_notice(&None), "任务已完成:一个会话");
    assert!(opens_window(&Some("open".to_string())));
    assert!(!opens_window(&Some("ack".to_string())));
    assert!(!opens_window(&None));
}
