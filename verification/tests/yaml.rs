use dsh_desktop::yaml::{fix_one_colon, fix_yaml_colon_spacing, heal_decision, heal_settings, Heal};

fn one(line: &str) -> Option<String> {
    fix_one_colon(&line.chars().collect()).map(|c| c.into_iter().collect())
}

#[test]
fn a_missing_space_is_put_in() {
    assert_eq!(one("reasoningEfforts:max"), Some("reasoningEfforts: max".to_string()));
    assert_eq!(one("  - key:value"), Some("  - key: value".to_string()));
    assert_eq!(one("\ta:b:c"), Some("\ta: b:c".to_string()));
}

#[test]
fn other_lines_are_left_alone() {
    for line in ["key: value", "key:", "key:\tv", "key:# note", "\"a\":b", "'a':b", ":x", "  :x", "plain", ""] {
        assert_eq!(one(line), None, "{:?}", line);
    }
}

#[test]
fn block_scalars_are_untouched() {
    let text = "a:1\nb: |\n  x:y\n\n  z:w\nc:2\n";
    assert_eq!(fix_yaml_colon_spacing(text), "a: 1\nb: |\n  x:y\n\n  z:w\nc: 2\n");
    let folded = "b: >\n  x:y\n c:d\ne:f";
    assert_eq!(fix_yaml_colon_spacing(folded), "b: >\n  x:y\n c:d\ne: f\n");
}

#[test]
fn block_headers_with_hints_or_comments_open_a_block() {
    assert_eq!(fix_yaml_colon_spacing("b: |-\n  x:y\n"), "b: |-\n  x:y\n");
    assert_eq!(fix_yaml_colon_spacing("b: >2+\n  x:y\n"), "b: >2+\n  x:y\n");
    assert_eq!(fix_yaml_colon_spacing("b: | # note\n  x:y\n"), "b: | # note\n  x:y\n");
    assert_eq!(fix_yaml_colon_spacing("- |-\n  x:y\n"), "- |-\n  x:y\n");
    assert_eq!(fix_yaml_colon_spacing("b: !!str &a |-\n  x:y\n"), "b: !!str &a |-\n  x:y\n");
    assert_eq!(fix_yaml_colon_spacing("\"a: # b\": |+\n  x:y\n"), "\"a: # b\": |+\n  x:y\n");
    assert_eq!(fix_yaml_colon_spacing("b:|\n  x:y\n"), "b: |\n  x:y\n");
}

#[test]
fn signs_inside_a_value_are_no_headers() {
    assert_eq!(fix_yaml_colon_spacing("a: x>2\n  b:c\n"), "a: x>2\n  b: c\n");
    assert_eq!(fix_yaml_colon_spacing("a:x>\n  b:c\n"), "a: x>\n  b: c\n");
    assert_eq!(fix_yaml_colon_spacing("a: x> # n\n  b:c\n"), "a: x> # n\n  b: c\n");
    assert_eq!(fix_yaml_colon_spacing("a: x>\n  b:c\n"), "a: x>\n  b:c\n");
    assert_eq!(fix_yaml_colon_spacing("a: b >2\n  x:y\n"), "a: b >2\n  x: y\n");
    assert_eq!(fix_yaml_colon_spacing("a: see - >2\n  x:y\n"), "a: see - >2\n  x: y\n");
    assert_eq!(fix_yaml_colon_spacing("a: b > # n\n  x:y\n"), "a: b > # n\n  x: y\n");
    assert_eq!(fix_yaml_colon_spacing("a:b >\n  x:y\n"), "a: b >\n  x: y\n");
    assert_eq!(fix_yaml_colon_spacing("a:|-\n  b:c\n"), "a: |-\n  b:c\n");
}

#[test]
fn a_comment_opens_no_block() {
    assert_eq!(fix_yaml_colon_spacing("# n: >-\n  x:y\n"), "# n: >-\n  x: y\n");
    assert_eq!(fix_yaml_colon_spacing("a: b # n: >-\n  x:y\n"), "a: b # n: >-\n  x: y\n");
    assert_eq!(fix_yaml_colon_spacing("  # n:|\n   x:y\n"), "  # n: |\n   x: y\n");
    assert_eq!(fix_yaml_colon_spacing("'it''s # n': |-\n  x:y\n"), "'it''s # n': |-\n  x:y\n");
    assert_eq!(fix_yaml_colon_spacing("it's # n: |-\n  x:y\n"), "it's # n: |-\n  x: y\n");
    assert_eq!(fix_yaml_colon_spacing("\"a\\\" # b\": |-\n  x:y\n"), "\"a\\\" # b\": |-\n  x:y\n");
    assert_eq!(fix_yaml_colon_spacing("a: \"b\" # \"n: |-\n  x:y\n"), "a: \"b\" # \"n: |-\n  x: y\n");
    assert_eq!(fix_yaml_colon_spacing("# x |\n  x:y\n"), "# x |\n  x:y\n");
}

#[test]
fn a_text_that_goes_on_opens_no_block() {
    assert_eq!(fix_yaml_colon_spacing("a: \"n: |-\n  x:y\n"), "a: \"n: |-\n  x: y\n");
    assert_eq!(fix_yaml_colon_spacing("a: b: |-\n  x:y\n"), "a: b: |-\n  x: y\n");
    assert_eq!(fix_yaml_colon_spacing("{a: |-\n  x:y\n"), "{a: |-\n  x: y\n");
}

#[test]
fn a_sibling_key_ends_the_block_of_a_list_item() {
    assert_eq!(fix_yaml_colon_spacing("- k: |-\n    t:u\n  o:v\n"), "- k: |-\n    t:u\n  o: v\n");
    assert_eq!(fix_yaml_colon_spacing("- k:|\n    t:u\n  o:v\n"), "- k: |\n    t:u\n  o: v\n");
    assert_eq!(fix_yaml_colon_spacing("- - k: >+ # n\n      t:u\n    o:v\n"), "- - k: >+ # n\n      t:u\n    o: v\n");
    assert_eq!(fix_yaml_colon_spacing("- - |-\n    t:u\n  o:v\n"), "- - |-\n    t:u\n  o: v\n");
    assert_eq!(fix_yaml_colon_spacing("- k: |\n    t:u\n  o:v\n"), "- k: |\n    t:u\n  o:v\n");
}

#[test]
fn a_second_repair_changes_nothing() {
    let text = "a:1\r\nb: |\n  x:y\n- c:d\n";
    let once = fix_yaml_colon_spacing(text);
    assert_eq!(fix_yaml_colon_spacing(&once), once);
}

#[test]
fn a_broken_file_is_repaired() {
    match heal_settings("model: x\nefforts:\n  reasoning:max\n  other: 1\n") {
        Heal::Repaired(text) => assert_eq!(text, "model: x\nefforts:\n  reasoning: max\n  other: 1\n"),
        _ => panic!("not repaired"),
    }
}

#[test]
fn a_healthy_file_is_left_alone() {
    assert!(matches!(heal_settings("a: 1\nb: [x, y]\n"), Heal::Healthy));
    assert!(matches!(heal_settings(""), Heal::Healthy));
}

#[test]
fn a_hopeless_file_is_left_alone() {
    assert!(matches!(heal_settings("a: [1, 2\nb: }\n"), Heal::Hopeless));
}

#[test]
fn the_decision_goes_by_both_parses() {
    assert!(matches!(heal_decision(true, String::new(), true), Heal::Healthy));
    assert!(matches!(heal_decision(false, String::new(), false), Heal::Hopeless));
    match heal_decision(false, "t".to_string(), true) {
        Heal::Repaired(text) => assert_eq!(text, "t"),
        _ => panic!("not repaired"),
    }
}
