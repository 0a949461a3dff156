use std::collections::VecDeque;

use stream_mux::{Mux, Outcome, Verdict};

/// A scripted source: the answers it gives to its successive polls; once the
/// script runs out it reports exhaustion.
type Script = VecDeque<Outcome<u32>>;

fn items(values: &[u32]) -> Script {
    values.iter().map(|v| Outcome::Item(*v)).collect()
}

/// One poll call of `mux`, whose sources are indices into `scripts`.
fn poll(mux: &mut Mux<usize, u32>, scripts: &mut Vec<Script>, waker: u32) -> Verdict<u32> {
    while let Some(id) = mux.take_next() {
        let outcome = scripts[id].pop_front().unwrap_or(Outcome::Exhausted);
        if let Some(item) = mux.record(id, outcome) {
            return Verdict::Item(item);
        }
    }
    if mux.finish(waker) {
        Verdict::Complete
    } else {
        Verdict::Pending
    }
}

fn item_of(v: Verdict<u32>) -> Option<u32> {
    match v {
        Verdict::Item(x) => Some(x),
        _ => None,
    }
}

#[test]
fn empty_mux_completes() {
    let mut mux: Mux<usize, u32> = Mux::new();
    let mut scripts: Vec<Script> = Vec::new();
    assert!(matches!(poll(&mut mux, &mut scripts, 1), Verdict::Complete));
    assert!(matches!(poll(&mut mux, &mut scripts, 2), Verdict::Complete));
}

#[test]
fn one_source_yields_then_completes() {
    let mut mux: Mux<usize, u32> = Mux::new();
    let mut scripts: Vec<Script> = Vec::new();
    assert!(matches!(poll(&mut mux, &mut scripts, 1), Verdict::Complete));
    scripts.push(items(&[1, 2]));
    assert!(mux.add(0).is_empty());
    assert_eq!(item_of(poll(&mut mux, &mut scripts, 1)), Some(1));
    assert_eq!(item_of(poll(&mut mux, &mut scripts, 1)), Some(2));
    assert!(matches!(poll(&mut mux, &mut scripts, 1), Verdict::Complete));
}

#[test]
fn one_source_pending_before_exhaustion() {
    let mut mux: Mux<usize, u32> = Mux::new();
    let mut scripts: Vec<Script> = Vec::new();
    let mut s1 = items(&[1, 2]);
    s1.push_back(Outcome::Pending);
    scripts.push(s1);
    mux.add(0);
    assert_eq!(item_of(poll(&mut mux, &mut scripts, 1)), Some(1));
    assert_eq!(item_of(poll(&mut mux, &mut scripts, 1)), Some(2));
    assert!(matches!(poll(&mut mux, &mut scripts, 1), Verdict::Pending));
    assert!(matches!(poll(&mut mux, &mut scripts, 1), Verdict::Complete));
}

#[test]
fn two_sources_added_together() {
    let mut mux: Mux<usize, u32> = Mux::new();
    let mut scripts: Vec<Script> = vec![items(&[1]), items(&[2])];
    mux.add(0);
    mux.add(1);
    let mut got = vec![
        item_of(poll(&mut mux, &mut scripts, 1)).unwrap(),
        item_of(poll(&mut mux, &mut scripts, 1)).unwrap(),
    ];
    got.sort();
    assert_eq!(got, vec![1, 2]);
    assert!(matches!(poll(&mut mux, &mut scripts, 1), Verdict::Complete));
}

#[test]
fn all_items_come_out_in_source_order() {
    let mut mux: Mux<usize, u32> = Mux::new();
    let mut scripts: Vec<Script> = vec![items(&[10, 11, 12]), items(&[20]), items(&[30, 31])];
    scripts[1].push_front(Outcome::Pending);
    for id in 0..3 {
        mux.add(id);
    }
    let mut out: Vec<u32> = Vec::new();
    let mut polls = 0;
    loop {
        polls += 1;
        assert!(polls <= 20);
        match poll(&mut mux, &mut scripts, 7) {
            Verdict::Item(x) => out.push(x),
            Verdict::Pending => {}
            Verdict::Complete => break,
        }
    }
    let of = |base: u32| out.iter().copied().filter(|x| x / 10 == base).collect::<Vec<u32>>();
    assert_eq!(of(1), vec![10, 11, 12]);
    assert_eq!(of(2), vec![20]);
    assert_eq!(of(3), vec![30, 31]);
    assert_eq!(out.len(), 6);
}

#[test]
fn no_completion_while_a_source_is_pending() {
    let mut mux: Mux<usize, u32> = Mux::new();
    let mut scripts: Vec<Script> = vec![items(&[]), VecDeque::from(vec![Outcome::Pending, Outcome::Pending])];
    mux.add(0);
    mux.add(1);
    assert!(matches!(poll(&mut mux, &mut scripts, 1), Verdict::Pending));
    assert!(matches!(poll(&mut mux, &mut scripts, 2), Verdict::Pending));
    assert!(matches!(poll(&mut mux, &mut scripts, 3), Verdict::Complete));
}

#[test]
fn add_hands_back_every_registered_handle() {
    let mut mux: Mux<usize, u32> = Mux::new();
    let mut scripts: Vec<Script> = vec![VecDeque::from(vec![Outcome::Pending; 3])];
    mux.add(0);
    assert!(matches!(poll(&mut mux, &mut scripts, 10), Verdict::Pending));
    assert!(matches!(poll(&mut mux, &mut scripts, 11), Verdict::Pending));
    assert!(matches!(poll(&mut mux, &mut scripts, 12), Verdict::Pending));
    scripts.push(items(&[5]));
    assert_eq!(mux.add(1), vec![10, 11, 12]);
    scripts.push(items(&[6]));
    assert!(mux.add(2).is_empty());
}

#[test]
fn completion_registers_no_handle() {
    let mut mux: Mux<usize, u32> = Mux::new();
    assert!(mux.finish(4));
    assert!(mux.add(0).is_empty());
}

#[test]
fn one_poll_yields_one_item_and_polls_no_further() {
    let mut mux: Mux<usize, u32> = Mux::new();
    let mut scripts: Vec<Script> = vec![items(&[1]), items(&[2]), items(&[3])];
    for id in 0..3 {
        mux.add(id);
    }
    assert_eq!(item_of(poll(&mut mux, &mut scripts, 1)), Some(1));
    assert_eq!(scripts[1].len(), 1);
    assert_eq!(scripts[2].len(), 1);
    assert_eq!(item_of(poll(&mut mux, &mut scripts, 1)), Some(2));
    assert_eq!(scripts[2].len(), 1);
}

#[test]
fn two_ready_sources_take_turns() {
    let mut mux: Mux<usize, u32> = Mux::new();
    let mut scripts: Vec<Script> = vec![items(&[1, 1, 1]), items(&[2, 2, 2])];
    mux.add(0);
    mux.add(1);
    let got: Vec<u32> = (0..6).map(|_| item_of(poll(&mut mux, &mut scripts, 1)).unwrap()).collect();
    assert_eq!(got, vec![1, 2, 1, 2, 1, 2]);
}

#[test]
fn winner_goes_behind_pending_sources() {
    let mut mux: Mux<usize, u32> = Mux::new();
    mux.add(0);
    mux.add(1);
    mux.add(2);
    assert_eq!(mux.take_next(), Some(0));
    assert_eq!(mux.record(0, Outcome::<u32>::Pending), None);
    assert_eq!(mux.take_next(), Some(1));
    assert_eq!(mux.record(1, Outcome::Item(9u32)), Some(9));
    assert_eq!(mux.take_next(), Some(2));
    assert_eq!(mux.record(2, Outcome::<u32>::Exhausted), None);
    assert_eq!(mux.take_next(), Some(0));
    assert_eq!(mux.record(0, Outcome::<u32>::Pending), None);
    assert_eq!(mux.take_next(), Some(1));
    assert_eq!(mux.record(1, Outcome::<u32>::Pending), None);
    assert_eq!(mux.take_next(), None);
    assert!(!mux.finish(3));
    assert_eq!(mux.take_next(), Some(0));
    assert_eq!(mux.record(0, Outcome::<u32>::Exhausted), None);
    assert_eq!(mux.take_next(), Some(1));
}
