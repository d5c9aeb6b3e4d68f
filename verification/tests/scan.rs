use dsh_desktop::scan::{
    batch_due, chunk_after, chunk_want, fresh_candidates, harvest, head_done, is_readable, lanes, open_failed,
    probe_request, session_minted, token_anchor, unsupported, workers, Outcome, Probe, Recovery, Region, Seen, Survey,
    BATCH_SIZE, CHUNK_BYTES,
};
use dsh_desktop::token::{Alphabets, TOKEN_LEN};

fn region(base: usize, size: usize, state: u32, protect: u32, ty: u32) -> Region {
    Region { base, size, state, protect, ty }
}

#[test]
fn only_committed_accessible_regions_are_readable() {
    assert!(is_readable(&region(0, 1, 0x1000, 0x04, 0x20000)));
    assert!(!is_readable(&region(0, 1, 0x2000, 0x04, 0x20000)));
    assert!(!is_readable(&region(0, 1, 0x1000, 0x104, 0x20000)));
    assert!(!is_readable(&region(0, 1, 0x1000, 0x01, 0x20000)));
    assert!(!is_readable(&region(0, 1, 0x1000, 0x00, 0x20000)));
    assert!(!is_readable(&region(0, 1, 0x1000, 0x200, 0x20000)));
}

#[test]
fn a_survey_lists_the_readable_regions() {
    let mut survey = Survey::new(true);
    assert!(survey.step(&region(0, 0x1000, 0x10000, 0, 0)));
    assert!(survey.step(&region(0x1000, 0x2000, 0x1000, 0x04, 0x20000)));
    assert!(survey.step(&region(0x3000, 0x500, 0x1000, 0x20, 0x0100_0000)));
    assert!(!survey.step(&region(0x1000, 0, 0x1000, 0x04, 0x20000)));
    assert_eq!(survey.ranges, vec![(0x1000, 0x2000)]);
    assert_eq!((survey.images_skipped, survey.image_bytes), (1, 0x500));
    let mut all = Survey::new(false);
    all.step(&region(0x3000, 0x500, 0x1000, 0x20, 0x0100_0000));
    assert_eq!(all.ranges, vec![(0x3000, 0x500)]);
    assert!(!all.step(&region(0x100, 0x100, 0x1000, 0x04, 0)));
}

#[test]
fn a_survey_ends_at_the_end_of_the_address_space() {
    let mut survey = Survey::new(false);
    assert!(survey.step(&region(usize::MAX - 1, 100, 0x1000, 0x04, 0)));
    assert_eq!(survey.address, usize::MAX);
    assert!(!survey.step(&region(usize::MAX, 100, 0x1000, 0x04, 0)));
}

#[test]
fn chunks_overlap_by_a_token() {
    let size = 2 * CHUNK_BYTES + 10;
    assert_eq!(chunk_want(size, 0), CHUNK_BYTES + TOKEN_LEN);
    assert_eq!(chunk_after(size, 0), Some(CHUNK_BYTES));
    assert_eq!(chunk_want(size, CHUNK_BYTES), CHUNK_BYTES + 10);
    assert_eq!(chunk_after(size, CHUNK_BYTES), Some(2 * CHUNK_BYTES));
    assert_eq!(chunk_want(size, 2 * CHUNK_BYTES), 10);
    assert_eq!(chunk_after(size, 2 * CHUNK_BYTES), None);
    assert_eq!(chunk_after(CHUNK_BYTES, 0), None);
}

#[test]
fn a_token_across_two_chunks_is_harvested() {
    let token = "E".repeat(TOKEN_LEN);
    for start in [0, CHUNK_BYTES - 42, CHUNK_BYTES - 1, CHUNK_BYTES, CHUNK_BYTES + 100 - TOKEN_LEN] {
        let mut memory = vec![b' '; CHUNK_BYTES + 100];
        memory[start..start + TOKEN_LEN].copy_from_slice(token.as_bytes());
        let mut batch = Vec::new();
        let mut offset = Some(0);
        while let Some(at) = offset {
            let chunk = &memory[at..at + chunk_want(memory.len(), at)];
            harvest(&Alphabets::new(), &None, chunk, true, &mut batch);
            offset = chunk_after(memory.len(), at);
        }
        assert!(batch.contains(&token), "{}", start);
    }
}

#[test]
fn lanes_and_workers_are_bounded() {
    assert_eq!((lanes(3), lanes(8), lanes(100)), (3, 8, 8));
    assert_eq!((workers(None), workers(Some(4)), workers(Some(64))), (1, 4, 8));
}

#[test]
fn no_candidate_is_exchanged_twice() {
    let mut seen = Seen::new();
    assert_eq!(fresh_candidates(&mut seen, &vec!["a".to_string()]), vec!["a"]);
    let batch: Vec<String> = ["a", "b", "b", "c"].iter().map(|s| s.to_string()).collect();
    assert_eq!(fresh_candidates(&mut seen, &batch), vec!["b", "c"]);
    assert!(fresh_candidates(&mut seen, &batch).is_empty());
}

#[test]
fn a_batch_is_due_when_it_is_full() {
    let mut batch = vec![String::new(); BATCH_SIZE - 1];
    assert!(!batch_due(&batch));
    batch.push(String::new());
    assert!(batch_due(&batch));
}

#[test]
fn a_harvest_goes_by_the_anchor_if_there_is_one() {
    let token = "A".repeat(TOKEN_LEN);
    let text = format!("token={token} {token}");
    let tables = Alphabets::new();
    let mut batch = Vec::new();
    harvest(&tables, &Some(token_anchor()), text.as_bytes(), true, &mut batch);
    assert_eq!(batch, vec![token.clone()]);
    harvest(&tables, &None, text.as_bytes(), true, &mut batch);
    assert_eq!(batch, vec![token.clone(), token.clone(), token]);
    assert_eq!(token_anchor(), b"token=".to_vec());
}

#[test]
fn the_exchange_is_written_by_hand() {
    assert_eq!(
        probe_request("abc", 3080),
        "GET /?token=abc HTTP/1.1\r\nHost: 127.0.0.1:3080\r\nAccept: */*\r\nConnection: close\r\n\r\n"
    );
    assert!(!head_done(b"HTTP/1.1 303 See Other\r\n"));
    assert!(head_done(b"HTTP/1.1 303 See Other\r\n\r\nbody"));
    assert!(head_done(&vec![b'x'; 16385]));
    assert!(!head_done(&vec![b'x'; 16384]));
}

#[test]
fn only_a_redirect_with_a_session_cookie_proves_a_token() {
    assert!(session_minted(b"HTTP/1.1 303 See Other\r\nSET-Cookie: x=1; DSH-Auth-3080=abc\r\n\r\n"));
    assert!(session_minted(b"HTTP/1.0 303 X\r\nset-cookie:dsh-auth-1\r\n\r\n"));
    assert!(!session_minted(b"HTTP/1.1 303 See Other\r\nLocation: /\r\n\r\n"));
    assert!(!session_minted(b"HTTP/1.1 200 OK\r\nset-cookie: dsh-auth-1\r\n\r\n"));
    assert!(!session_minted(b"HTTP/1.1 401 No\r\n\r\n"));
    assert!(!session_minted(b"HTTP/1.1 303 X\r\nX-Set-Cookie: dsh-auth-1\r\n\r\n"));
    assert!(!session_minted(b""));
    assert!(!session_minted(b"HTTP/1.1 303 X\r\nLocation: /\r\n\r\nset-cookie: dsh-auth-1\r\n"));
    assert!(session_minted(b"HTTP/1.1 303 X\r\nset-cookie: dsh-auth-1\r\n\r\nbody"));
    assert!(session_minted(b"HTTP/1.1 303 X\r\nset-cookie: dsh-auth-1"));
}

#[test]
fn a_candidate_is_accepted_by_its_answer() {
    let probe = Probe::new("abc", 3080);
    assert_eq!(probe.request(), probe_request("abc", 3080));
    assert!(probe.judge(None).is_none());
    assert!(Probe::new("abc", 3080).judge(Some(b"HTTP/1.1 401 No\r\n\r\n".to_vec())).is_none());
    assert!(Probe::new("abc", 3080).judge(Some(b"HTTP/1.0 303 X\r\nset-cookie:dsh-auth-1\r\n\r\n".to_vec())).is_some());
}

#[test]
fn the_passes_run_in_order_until_a_hit() {
    let mut recovery = Recovery::new();
    let first = recovery.next_pass().unwrap();
    assert!(first.anchored && first.skip_images && first.tail_filter);
    assert!(recovery.finish_pass(None, "s1").is_none());
    let second = recovery.next_pass().unwrap();
    assert!(!second.anchored && second.skip_images && second.tail_filter);
    let hit = Probe::new("tok", 1).judge(Some(b"HTTP/1.1 303 X\r\nset-cookie: dsh-auth-1\r\n\r\n".to_vec()));
    assert!(hit.is_some());
    match recovery.finish_pass(hit, "s2") {
        Some(Outcome::Found { token, stats }) => {
            assert_eq!(token, "tok");
            assert_eq!(stats, "pass1[anchor] s1; pass2[runs] s2");
        }
        _ => panic!("no outcome"),
    }
}

#[test]
fn a_recovery_without_a_hit_reports_all_passes() {
    let mut recovery = Recovery::new();
    for s in ["a", "b", "c"] {
        assert!(recovery.finish_pass(None, s).is_none());
    }
    let last = recovery.next_pass().unwrap();
    assert!(!last.anchored && !last.skip_images && !last.tail_filter);
    match recovery.finish_pass(None, "d") {
        Some(Outcome::NotFound { detail }) => {
            assert_eq!(detail, "pass1[anchor] a; pass2[runs] b; pass3[runs] c; pass4[runs] d");
        }
        _ => panic!("no outcome"),
    }
    assert!(recovery.next_pass().is_none());
}

#[test]
fn refusals_say_why() {
    match open_failed(5) {
        Outcome::NotFound { detail } => {
            assert_eq!(detail, "OpenProcess 失败(Win32 错误 5), 目标进程可能属于其他用户或已退出");
        }
        _ => panic!("found"),
    }
    match unsupported() {
        Outcome::NotFound { detail } => assert_eq!(detail, "内存恢复仅 Windows 可用"),
        _ => panic!("found"),
    }
}
