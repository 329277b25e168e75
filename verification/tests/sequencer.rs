use snaprs::pipeline::{PktSequencer, SeqAction};

/// Runs the receiver's decisions for one packet, with every send going
/// through; returns the counters sent.
fn process(seq: &mut PktSequencer, p: u64) -> Vec<u64> {
    seq.accept(p);
    let mut out = Vec::new();
    while let Some(a) = seq.next_action(p) {
        match a {
            SeqAction::Forward => {
                out.push(p);
                break;
            }
            SeqAction::Fill(c) => {
                out.push(c);
                seq.fill_sent();
            }
        }
    }
    out
}

#[test]
fn new_expects_nothing() {
    let s = PktSequencer::new();
    assert_eq!(s.next_cnt, None);
    assert_eq!(s.ndropped, 0);
}

#[test]
fn next_action_before_any_packet() {
    let mut s = PktSequencer::new();
    assert_eq!(s.next_action(5), None);
    assert_eq!(s, PktSequencer::new());
}

#[test]
fn first_packet_fixes_expectation() {
    let mut s = PktSequencer::new();
    assert!(!s.accept(100));
    assert_eq!(s.next_cnt, Some(100));
    assert_eq!(process(&mut s, 100), vec![100]);
    assert_eq!(s.next_cnt, Some(101));
    assert_eq!(s.ndropped, 0);
}

#[test]
fn in_order_stream_has_no_fills() {
    let mut s = PktSequencer::new();
    let mut out = Vec::new();
    for p in 10..20 {
        out.extend(process(&mut s, p));
    }
    assert_eq!(out, (10..20).collect::<Vec<u64>>());
    assert_eq!(s.ndropped, 0);
}

#[test]
fn gap_is_filled() {
    let mut s = PktSequencer::new();
    let mut out = Vec::new();
    for p in [5u64, 6, 10, 11, 14] {
        out.extend(process(&mut s, p));
    }
    assert_eq!(out, (5..15).collect::<Vec<u64>>());
    assert_eq!(s.ndropped, 5);
    assert_eq!(s.next_cnt, Some(15));
}

#[test]
fn fill_decisions_step_by_step() {
    let mut s = PktSequencer::new();
    process(&mut s, 3);
    s.accept(6);
    assert_eq!(s.next_action(6), Some(SeqAction::Fill(4)));
    assert_eq!(s.ndropped, 1);
    // a retry of the same stand-in, as after a full channel, counts again
    assert_eq!(s.next_action(6), Some(SeqAction::Fill(4)));
    assert_eq!(s.ndropped, 2);
    s.fill_sent();
    assert_eq!(s.next_action(6), Some(SeqAction::Fill(5)));
    s.fill_sent();
    assert_eq!(s.next_action(6), Some(SeqAction::Forward));
    assert_eq!(s.next_cnt, Some(7));
    assert_eq!(s.ndropped, 3);
}

#[test]
fn late_packet_is_forwarded_and_rewinds() {
    let mut s = PktSequencer::new();
    for p in 20..25 {
        process(&mut s, p);
    }
    assert_eq!(process(&mut s, 22), vec![22]);
    assert_eq!(s.next_cnt, Some(23));
    assert_eq!(process(&mut s, 25), vec![23, 24, 25]);
}

#[test]
fn restart_resets_loss_count() {
    let mut s = PktSequencer::new();
    process(&mut s, 1);
    process(&mut s, 4);
    assert_eq!(s.ndropped, 2);
    assert!(s.accept(0));
    assert_eq!(s.ndropped, 0);
    assert_eq!(s.next_action(0), Some(SeqAction::Forward));
    assert_eq!(s.next_cnt, Some(1));
}

/// Runs the receiver over `ps` and returns (counter, is stand-in) pairs.
fn run_sent(ps: &[u64]) -> Vec<(u64, bool)> {
    let mut s = PktSequencer::new();
    let mut out = Vec::new();
    for &p in ps {
        for c in process(&mut s, p) {
            out.push((c, c != p));
        }
    }
    out
}

#[test]
fn never_skips_in_any_order() {
    let ps = [7u64, 9, 9, 3, 0, 4, 2, 6, 6, 5];
    let out = run_sent(&ps);
    assert_eq!(out[0], (7, false));
    assert_eq!(*out.last().unwrap(), (5, false));
    for k in 0..out.len() - 1 {
        assert!(out[k + 1].0 <= out[k].0 + 1);
        if out[k + 1].1 {
            assert_eq!(out[k + 1].0, out[k].0 + 1);
        }
    }
    let counts: Vec<u64> = out.iter().map(|x| x.0).collect();
    assert_eq!(counts, vec![7, 8, 9, 9, 3, 0, 1, 2, 3, 4, 2, 3, 4, 5, 6, 6, 5]);
}
