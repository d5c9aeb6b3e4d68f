use dsh_desktop::scan::{Accepted, Probe, CHUNK_BYTES};
use dsh_desktop::token::{Alphabets, TOKEN_LEN};
use dsh_desktop::worker::{Action, Event, Search, Worker};

fn search() -> Search {
    Search { tables: Alphabets::new(), anchor: None, tail_filter: false }
}

/// A chunk with `n` different candidates.
fn chunk(n: usize, mark: u8) -> Vec<u8> {
    let mut out = Vec::new();
    for i in 0..n {
        let mut token = vec![mark; TOKEN_LEN];
        token[0] = b'a' + i as u8;
        out.extend_from_slice(&token);
        out.push(b' ');
    }
    out
}

fn hit() -> Option<Accepted> {
    Probe::new("t", 1).judge(Some(b"HTTP/1.1 303 X\r\nset-cookie: dsh-auth-1\r\n\r\n".to_vec()))
}

fn region(base: usize, size: usize) -> Event {
    Event::Region { next: Some((base, size)) }
}

#[test]
fn a_worker_reads_a_region_chunk_by_chunk() {
    let s = search();
    let (w, a) = Worker::new(false);
    assert!(matches!(a, Action::Ask));
    let (w, a) = w.step(region(0x1000, CHUNK_BYTES + 5), false, &s).unwrap();
    assert!(matches!(a, Action::Read { base: 0x1000, offset: 0, want } if want == CHUNK_BYTES + 5));
    let (w, a) = w.step(Event::Bytes { bytes: chunk(1, b'X') }, false, &s).unwrap();
    assert!(matches!(a, Action::Read { offset: CHUNK_BYTES, want: 5, .. }));
    let (w, a) = w.step(Event::Bytes { bytes: Vec::new() }, false, &s).unwrap();
    assert!(matches!(a, Action::Ask));
    let (w, a) = w.step(Event::Region { next: None }, false, &s).unwrap();
    match a {
        Action::Exchange { batch } => assert_eq!(batch, vec![format!("a{}", "X".repeat(42))]),
        _ => panic!("the last batch is not exchanged"),
    }
    let (_, a) = w.step(Event::Exchanged { hit: None }, false, &s).unwrap();
    assert!(matches!(a, Action::Stop));
}

#[test]
fn a_full_batch_is_exchanged_at_once() {
    let s = search();
    let (w, _) = Worker::new(false);
    let (w, _) = w.step(region(0, 100), false, &s).unwrap();
    let (w, a) = w.step(Event::Bytes { bytes: chunk(16, b'Y') }, false, &s).unwrap();
    match a {
        Action::Exchange { batch } => assert_eq!(batch.len(), 16),
        _ => panic!("not exchanged"),
    }
    let (w, a) = w.step(Event::Exchanged { hit: None }, false, &s).unwrap();
    assert!(matches!(a, Action::Ask));
    let (_, a) = w.step(Event::Region { next: None }, false, &s).unwrap();
    assert!(matches!(a, Action::Stop));
}

#[test]
fn a_hit_stops_the_worker() {
    let s = search();
    let (w, _) = Worker::new(false);
    let (w, _) = w.step(region(0, 100), false, &s).unwrap();
    let (w, _) = w.step(Event::Bytes { bytes: chunk(16, b'Z') }, false, &s).unwrap();
    let (w, a) = w.step(Event::Exchanged { hit: hit() }, true, &s).unwrap();
    assert!(matches!(a, Action::Report { .. }));
    assert!(w.step(Event::Region { next: None }, true, &s).is_none());
}

#[test]
fn a_hit_in_the_last_batch_is_reported() {
    let s = search();
    let (w, _) = Worker::new(false);
    let (w, _) = w.step(region(0, 100), false, &s).unwrap();
    let (w, _) = w.step(Event::Bytes { bytes: chunk(2, b'V') }, false, &s).unwrap();
    let (w, a) = w.step(Event::Region { next: None }, false, &s).unwrap();
    assert!(matches!(a, Action::Exchange { .. }));
    let (_, a) = w.step(Event::Exchanged { hit: hit() }, false, &s).unwrap();
    assert!(matches!(a, Action::Report { .. }));
}

#[test]
fn a_solved_pass_winds_down() {
    let s = search();
    assert!(matches!(Worker::new(true).1, Action::Stop));
    let (w, _) = Worker::new(false);
    let (w, _) = w.step(region(0, 10 * CHUNK_BYTES), false, &s).unwrap();
    let (_, a) = w.step(Event::Bytes { bytes: chunk(3, b'W') }, true, &s).unwrap();
    assert!(matches!(a, Action::Stop));
}

#[test]
fn what_does_not_belong_is_refused() {
    let s = search();
    let (w, _) = Worker::new(false);
    assert!(w.step(Event::Exchanged { hit: hit() }, false, &s).is_none());
    let (w, _) = Worker::new(false);
    let (w, a) = w.step(region(0, 0), false, &s).unwrap();
    assert!(matches!(a, Action::Ask));
    assert!(w.step(Event::Bytes { bytes: Vec::new() }, false, &s).is_none());
}
