use dsh_desktop::console::{console_line, missing_bundle, resolve_launch_url, ChildTail, CHILD_TAIL_CAP};

fn lines(list: &[&str]) -> Vec<String> {
    list.iter().map(|s| s.to_string()).collect()
}

#[test]
fn the_tail_holds_the_last_lines() {
    let mut tail = ChildTail::new();
    assert!(tail.last(5).is_empty());
    for i in 0..100 {
        tail.push(format!("line {i}"));
    }
    assert_eq!(tail.last(1000).len(), CHILD_TAIL_CAP);
    assert_eq!(tail.last(1000)[0], "line 40");
    assert_eq!(tail.last(2), lines(&["line 98", "line 99"]));
    assert_eq!(tail.excerpt(3), "line 97 ⏎ line 98 ⏎ line 99");
    tail.clear();
    assert_eq!(tail.excerpt(3), "");
}

#[test]
fn the_printed_address_is_taken_with_its_token() {
    let printed = lines(&[
        "starting",
        "dsh web: http://127.0.0.1:3080/?token=ab-C_9 (press q)",
        "http://127.0.0.1:3080/?token=other",
    ]);
    assert_eq!(resolve_launch_url(&printed), Some("http://127.0.0.1:3080/?token=ab-C_9".to_string()));
}

#[test]
fn an_address_without_a_token_is_passed_over() {
    let printed = lines(&["http://127.0.0.1:3080/?token=", "http://127.0.0.1:3080/?token=!x", "no"]);
    assert_eq!(resolve_launch_url(&printed), None);
    assert_eq!(resolve_launch_url(&Vec::new()), None);
}

#[test]
fn the_last_missing_bundle_is_named() {
    let printed = lines(&[
        "cannot resolve profile bundle \"old\"",
        "fatal: cannot resolve profile bundle \"@scope/pkg\" in web",
        "cannot resolve profile bundle \"\"",
        "cannot resolve profile bundle \"open",
    ]);
    assert_eq!(missing_bundle(&printed), Some("@scope/pkg".to_string()));
    assert_eq!(missing_bundle(&lines(&["all fine"])), None);
}

#[test]
fn lines_are_taken_without_their_ends() {
    assert_eq!(console_line("a\r\n"), "a");
    assert_eq!(console_line("a\n"), "a");
    assert_eq!(console_line("a\r"), "a\r");
    assert_eq!(console_line("\n"), "");
    assert_eq!(console_line(""), "");
}
