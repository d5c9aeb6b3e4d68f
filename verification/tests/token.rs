use dsh_desktop::token::{
    accepted, base64url_table, collect_anchored, collect_runs, marker_at, shaped, tail_table, Alphabets,
    TOKEN_LEN,
};

const ALPHABET: &str = "ABCDEFGHIJKLMNOPQRSTUVWXYZabcdefghijklmnopqrstuvwxyz0123456789-_";

/// The base64url form, without padding, of 32 bytes.
fn encode(payload: &[u8; 32]) -> String {
    let letters: Vec<char> = ALPHABET.chars().collect();
    let mut out = String::new();
    let mut i = 0;
    while i < 30 {
        let n = ((payload[i] as u32) << 16) | ((payload[i + 1] as u32) << 8) | payload[i + 2] as u32;
        for shift in [18, 12, 6, 0] {
            out.push(letters[(n >> shift) as usize % 64]);
        }
        i += 3;
    }
    let n = ((payload[30] as u32) << 8) | payload[31] as u32;
    out.push(letters[(n >> 10) as usize % 64]);
    out.push(letters[(n >> 4) as usize % 64]);
    out.push(letters[(n << 2) as usize % 64]);
    out
}

fn token() -> String {
    let mut payload = [0u8; 32];
    for (i, b) in payload.iter_mut().enumerate() {
        *b = (i * 37 + 11) as u8;
    }
    encode(&payload)
}

fn runs(buffer: &[u8], tail_filter: bool) -> Vec<String> {
    let mut out = Vec::new();
    collect_runs(&Alphabets::new(), buffer, tail_filter, &mut out);
    out
}

fn anchored(buffer: &[u8], tail_filter: bool) -> Vec<String> {
    let mut out = Vec::new();
    collect_anchored(&Alphabets::new(), buffer, b"token=", tail_filter, &mut out);
    out
}

#[test]
fn the_tables_hold_the_two_alphabets() {
    let base = base64url_table();
    let tail = tail_table();
    let all: Vec<u8> = (0..=255u8).filter(|b| base[*b as usize]).collect();
    assert_eq!(all.len(), 64);
    assert!(ALPHABET.bytes().all(|b| base[b as usize]));
    let last: Vec<char> = (0..=255u8).filter(|b| tail[*b as usize]).map(|b| b as char).collect();
    assert_eq!(last.iter().collect::<String>(), "048AEIMQUYcgkosw");
    let tables = Alphabets::new();
    assert!(tables.base64url(b'-') && !tables.base64url(b'+'));
    assert!(tables.tail(b'A') && !tables.tail(b'B'));
}

#[test]
fn every_payload_passes_the_tail_filter() {
    let t = token();
    assert_eq!(t.len(), TOKEN_LEN);
    assert_eq!(runs(t.as_bytes(), true), vec![t.clone()]);
}

#[test]
fn only_maximal_runs_of_the_token_length_count() {
    let t = token();
    let cut = &t[1..];
    assert!(runs(cut.as_bytes(), false).is_empty());
    let longer = format!("{t}A");
    assert!(runs(longer.as_bytes(), false).is_empty());
    let two = format!("\"{t}\" {cut} {t}!");
    assert_eq!(runs(two.as_bytes(), true), vec![t.clone(), t]);
}

#[test]
fn the_tail_filter_only_narrows() {
    let mut odd = token();
    odd.pop();
    odd.push('B');
    assert!(runs(odd.as_bytes(), true).is_empty());
    assert_eq!(runs(odd.as_bytes(), false), vec![odd]);
}

#[test]
fn printed_tokens_are_found_behind_the_anchor() {
    let t = token();
    let text = format!("dsh web: http://127.0.0.1:3080/?token={t}\n");
    assert_eq!(anchored(text.as_bytes(), true), vec![t.clone()]);
    assert_eq!(runs(text.as_bytes(), true), vec![t.clone()]);
    let longer = format!("token={t}x");
    assert!(anchored(longer.as_bytes(), true).is_empty());
    assert!(anchored(t.as_bytes(), true).is_empty());
    assert!(anchored(b"token=", true).is_empty());
}

#[test]
fn anchored_tokens_are_the_runs_behind_the_marker() {
    let (a, b) = ("A".repeat(TOKEN_LEN), "E".repeat(TOKEN_LEN));
    let text = format!("{b} token={a} token={b} {a}");
    assert_eq!(anchored(text.as_bytes(), true), vec![a.clone(), b.clone()]);
    assert_eq!(runs(text.as_bytes(), true), vec![b.clone(), a.clone(), b, a]);
}

#[test]
fn pieces_of_the_harvest_work_alone() {
    let tables = Alphabets::new();
    assert!(shaped(&tables, b"ab-_", 0, 4));
    assert!(!shaped(&tables, b"ab c", 0, 4));
    assert!(shaped(&tables, b"ab c", 3, 3));
    assert!(marker_at(b"xtoken=", b"token=", 1));
    assert!(!marker_at(b"xtoken-", b"token=", 1));
    let mut out = Vec::new();
    accepted(&tables, b"xxA", 0, 3, true, &mut out);
    accepted(&tables, b"xxB", 0, 3, true, &mut out);
    accepted(&tables, b"xxB", 0, 3, false, &mut out);
    assert_eq!(out, vec!["xxA", "xxB"]);
}
