use dsh_desktop::settings::{
    check_custom_path, clean_path, custom_dsh_path, prefer_npx, read_settings, save_custom_path,
    save_prefer_npx, saved_dsh_path,
};

fn text(s: &str) -> Option<String> {
    Some(s.to_string())
}

#[test]
fn unreadable_settings_read_empty() {
    for t in [None, text(""), text("{oops")] {
        let settings = read_settings(&t);
        assert!(!prefer_npx(&settings));
        assert_eq!(saved_dsh_path(&settings), None);
        assert_eq!(settings.to_text(), "{}");
    }
}

#[test]
fn agreement_is_read_back() {
    let saved = save_prefer_npx(&text("{\"customDshPath\":\"C:\\\\dsh.cmd\"}"), true);
    assert_eq!(saved, text("{\"customDshPath\":\"C:\\\\dsh.cmd\",\"preferNpx\":true}"));
    let settings = read_settings(&saved);
    assert!(prefer_npx(&settings));
    assert_eq!(saved_dsh_path(&settings), text("C:\\dsh.cmd"));
    let withdrawn = save_prefer_npx(&saved, false);
    assert!(!prefer_npx(&read_settings(&withdrawn)));
}

#[test]
fn location_is_read_back() {
    let saved = save_custom_path(&None, "D:\\工具\\dsh.exe");
    assert_eq!(saved, text("{\"customDshPath\":\"D:\\\\工具\\\\dsh.exe\"}"));
    assert_eq!(saved_dsh_path(&read_settings(&saved)), text("D:\\工具\\dsh.exe"));
    let null = save_custom_path(&text("null"), "x");
    assert_eq!(null, text("{\"customDshPath\":\"x\"}"));
}

#[test]
fn settings_with_fractions_are_kept() {
    let before = text("{\"a\":1.7976931348623157e308,\"b\":-2.5e-310,\"c\":[0.1,{\"d\":-0.0}],\"e\":[7,\"x\"],\"preferNpx\":0.5}");
    let saved = save_prefer_npx(&before, true);
    let settings = read_settings(&saved);
    assert!(prefer_npx(&settings));
    for key in ["a", "b", "c", "e"] {
        assert!(settings.get(key).is_some());
    }
    assert_eq!(settings.get("e").unwrap().to_text(), "[7,\"x\"]");
    let again = read_settings(&save_custom_path(&saved, "p"));
    assert!(prefer_npx(&again));
    assert_eq!(saved_dsh_path(&again), text("p"));
    assert_eq!(again.get("e").unwrap().to_text(), "[7,\"x\"]");
}

#[test]
fn settings_that_are_no_object_are_left_alone() {
    for t in ["[]", "1", "\"s\"", "true"] {
        assert_eq!(save_prefer_npx(&text(t), true), None);
        assert_eq!(save_custom_path(&text(t), "x"), None);
    }
}

#[test]
fn values_of_another_kind_do_not_count() {
    let settings = read_settings(&text("{\"preferNpx\":\"yes\",\"customDshPath\":7}"));
    assert!(!prefer_npx(&settings));
    assert_eq!(saved_dsh_path(&settings), None);
}

#[test]
fn a_location_that_is_gone_does_not_count() {
    let settings = read_settings(&text("{\"customDshPath\":\"p\"}"));
    assert_eq!(custom_dsh_path(&settings, true), text("p"));
    assert_eq!(custom_dsh_path(&settings, false), None);
}

#[test]
fn an_entered_path_is_cleaned_and_checked() {
    assert_eq!(clean_path("  \"C:\\a b\\dsh.cmd\" \n"), "C:\\a b\\dsh.cmd");
    assert_eq!(clean_path("\"\"\""), "");
    assert_eq!(clean_path("\" x \""), " x ");
    assert_eq!(check_custom_path("", false), Err("路径不能为空".to_string()));
    assert_eq!(
        check_custom_path("C:\\x", false),
        Err("找不到文件:C:\\x(需要 dsh.cmd 或 dsh.exe 的完整路径)".to_string())
    );
    assert_eq!(check_custom_path("C:\\x", true), Ok(()));
}
