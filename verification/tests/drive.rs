//! Both roles run over an in-memory pipe, one decision at a time.

use std::collections::{BTreeSet, VecDeque};

use p2p::reconcile::codec;
use p2p::reconcile::drive::{Driver, SessionCost, Step};
use p2p::reconcile::engine::rbsr::{Fingerprint, Range, RbsrEngine, RbsrMessage};
use p2p::reconcile::engine::riblt::RibltEngine;
use p2p::reconcile::session::MAX_ROUNDS;
use p2p::reconcile::{
    Bound, Diff, Engine, Item, ItemId, MemorySource, Progress, ReconcileError, Session,
    WireMessage,
};

fn id(seed: u64) -> ItemId {
    ItemId::new(seed.to_be_bytes().to_vec())
}

fn source(seeds: impl IntoIterator<Item = u64>) -> MemorySource {
    MemorySource::new(
        seeds
            .into_iter()
            .map(|seed| Item::new(seed % 5, id(seed)))
            .collect(),
    )
    .unwrap()
}

fn ids(seeds: impl IntoIterator<Item = u64>) -> BTreeSet<ItemId> {
    seeds.into_iter().map(id).collect()
}

fn initiator(seeds: Vec<u64>) -> Driver<RbsrEngine<MemorySource>> {
    Driver::initiator(Session::new(RbsrEngine::initiator(source(seeds))))
}

fn responder(seeds: Vec<u64>) -> Driver<RbsrEngine<MemorySource>> {
    Driver::responder(Session::new(RbsrEngine::responder(source(seeds))))
}

/// Sends everything a driver has to say, and reports how it wants to go on.
fn flush<E: Engine>(
    driver: &mut Driver<E>,
    pipe: &mut VecDeque<Vec<u8>>,
) -> Result<Step, ReconcileError>
where
    E::Message: WireMessage,
{
    loop {
        match driver.next_step()? {
            Step::Send(frame) => pipe.push_back(frame),
            other => return Ok(other),
        }
    }
}

/// Runs both ends until the initiator finishes and the responder is told.
fn run<E: Engine>(
    mut left: Driver<E>,
    mut right: Driver<E>,
) -> Result<(Diff, SessionCost, SessionCost), ReconcileError>
where
    E::Message: WireMessage,
{
    let mut to_right = VecDeque::new();
    let mut to_left = VecDeque::new();
    while flush(&mut left, &mut to_right)? == Step::Receive {
        while let Some(frame) = to_right.pop_front() {
            assert_eq!(flush(&mut right, &mut to_left)?, Step::Receive);
            right.frame_arrived(&frame)?;
            assert_eq!(flush(&mut right, &mut to_left)?, Step::Receive);
        }
        let frame = to_left.pop_front().expect("the responder answers");
        left.frame_arrived(&frame)?;
    }
    assert!(left.is_converged());
    right.peer_closed()?;
    let (spent, served) = (left.cost(), right.cost());
    Ok((left.into_diff(), spent, served))
}

fn reconcile(local: Vec<u64>, remote: Vec<u64>) -> (Diff, SessionCost) {
    let (diff, spent, served) =
        run(initiator(local), responder(remote)).expect("session must converge");
    assert_eq!(spent.bytes_sent, served.bytes_received);
    assert_eq!(spent.bytes_received, served.bytes_sent);
    (diff, spent)
}

#[test]
fn identical_sets_converge_with_an_empty_diff() {
    let (diff, _) = reconcile((0..200).collect(), (0..200).collect());
    assert!(diff.is_empty(), "no divergence must yield no diff");
}

#[test]
fn empty_sets_converge() {
    let (diff, _) = reconcile(Vec::new(), Vec::new());
    assert!(diff.is_empty());
}

#[test]
fn the_discovered_diff_is_exactly_the_true_diff() {
    let local: Vec<u64> = (0..500).filter(|seed| seed % 7 != 0).collect();
    let remote: Vec<u64> = (0..500).filter(|seed| seed % 11 != 0).collect();

    let (diff, _) = reconcile(local.clone(), remote.clone());

    let local_set = ids(local);
    let remote_set = ids(remote);
    assert_eq!(
        diff.need().iter().cloned().collect::<BTreeSet<_>>(),
        remote_set.difference(&local_set).cloned().collect(),
        "need must be exactly what the peer holds and we lack"
    );
    assert_eq!(
        diff.have().iter().cloned().collect::<BTreeSet<_>>(),
        local_set.difference(&remote_set).cloned().collect(),
        "have must be exactly what we hold and the peer lacks"
    );
}

#[test]
fn a_one_sided_set_is_discovered_whole() {
    let (diff, _) = reconcile(Vec::new(), (0..100).collect());
    assert_eq!(diff.need().len(), 100);
    assert!(diff.have().is_empty());
}

#[test]
fn an_initiator_whose_peer_vanishes_errors_rather_than_hanging() {
    let mut driver = initiator((0..100).collect());
    let mut sent = VecDeque::new();
    assert_eq!(flush(&mut driver, &mut sent), Ok(Step::Receive));
    assert_eq!(
        driver.peer_closed(),
        Err(ReconcileError::Transport(
            "peer closed the session before it converged".to_string()
        ))
    );
}

#[test]
fn an_initiator_rejects_an_undecodable_frame() {
    let mut driver = initiator((0..100).collect());
    let mut sent = VecDeque::new();
    assert_eq!(flush(&mut driver, &mut sent), Ok(Step::Receive));
    assert_eq!(sent.len(), 1);
    let error = driver
        .frame_arrived(b"not a frame")
        .expect_err("garbage must fail the session");
    assert!(matches!(error, ReconcileError::Codec(_)), "{error:?}");
    assert_eq!(driver.cost().rounds, 0);
    assert_eq!(driver.cost().bytes_received, 11);
}

#[test]
fn a_responder_stops_a_peer_that_never_converges() {
    let mut driver = responder((0..300).collect());
    // A peer that answers every refinement with the same never-matching
    // full-range fingerprint.
    let provocation = RbsrMessage::new(vec![Range::fingerprint(
        Bound::Max,
        Fingerprint::of(&[&id(u64::MAX)]),
    )]);
    let frame = codec::encode(&provocation).unwrap();
    let mut replies = VecDeque::new();
    let mut outcome = Ok(Progress::Continue);
    for _ in 0..=MAX_ROUNDS {
        assert_eq!(flush(&mut driver, &mut replies), Ok(Step::Receive));
        outcome = driver.frame_arrived(&frame);
        if outcome.is_err() {
            break;
        }
    }
    assert_eq!(
        outcome,
        Err(ReconcileError::RoundCapExceeded { max: MAX_ROUNDS })
    );
    assert_eq!(replies.len(), MAX_ROUNDS);
}

#[test]
fn a_responder_ends_cleanly_when_the_initiator_closes() {
    let mut driver = responder((0..50).collect());
    assert_eq!(driver.next_step(), Ok(Step::Receive));
    assert_eq!(driver.peer_closed(), Ok(()));
    assert_eq!(
        driver.cost().rounds,
        0,
        "a session closed before its first round served none"
    );
}

#[test]
fn an_initiator_whose_peer_goes_silent_times_out() {
    let mut driver = initiator((0..100).collect());
    let mut sent = VecDeque::new();
    assert_eq!(flush(&mut driver, &mut sent), Ok(Step::Receive));
    assert!(matches!(
        driver.peer_silent(),
        ReconcileError::Transport(_)
    ));
}

#[test]
fn a_responder_whose_peer_goes_silent_times_out() {
    let mut driver = responder((0..100).collect());
    assert_eq!(driver.next_step(), Ok(Step::Receive));
    assert!(matches!(
        driver.peer_silent(),
        ReconcileError::Transport(_)
    ));
}

#[test]
fn a_session_reports_what_it_cost() {
    let (diff, cost) = reconcile((0..300).collect(), (0..300).collect());

    assert!(diff.is_empty());
    assert!(cost.rounds > 0, "a converged session consumed messages");
    assert!(
        cost.bytes_sent > 0 && cost.bytes_received > 0,
        "both directions must be counted, got {cost:?}"
    );
}

#[test]
fn agreeing_costs_far_less_than_diverging() {
    let identical: Vec<u64> = (0..500).collect();
    let (_, agreed) = reconcile(identical.clone(), identical.clone());
    let (_, diverged) = reconcile(identical, (0..500).filter(|n| n % 3 != 0).collect());

    assert!(
        agreed.bytes_sent + agreed.bytes_received
            < (diverged.bytes_sent + diverged.bytes_received) / 4,
        "a zero-diff session must be far cheaper: agreed {agreed:?} vs diverged {diverged:?}"
    );
}

#[test]
fn the_rateless_engine_runs_under_the_same_decisions() {
    let local = source(0..60);
    let remote = source(10..75);
    let decoder = RibltEngine::decoder(&local).expect("uniform width");
    let encoder = RibltEngine::encoder(&remote).expect("uniform width");
    let (diff, spent, _) = run(
        Driver::initiator(Session::new(decoder)),
        Driver::responder(Session::new(encoder)),
    )
    .expect("converges");
    assert_eq!(
        diff.need().iter().cloned().collect::<BTreeSet<_>>(),
        ids(60..75)
    );
    assert_eq!(
        diff.have().iter().cloned().collect::<BTreeSet<_>>(),
        ids(0..10)
    );
    assert!(spent.rounds >= 1);
}

#[test]
fn an_initiator_speaks_first_and_a_responder_waits() {
    let mut first = initiator((0..3).collect());
    assert!(matches!(first.next_step(), Ok(Step::Send(_))));
    assert_eq!(first.next_step(), Ok(Step::Receive));
    assert_eq!(first.next_step(), Ok(Step::Receive));
    let mut second = responder((0..3).collect());
    assert_eq!(second.next_step(), Ok(Step::Receive));
}

#[test]
fn a_converged_initiator_finishes_and_is_not_failed_by_a_close() {
    let mut left = initiator((0..10).collect());
    let mut right = responder((0..10).collect());
    let mut pipe = VecDeque::new();
    assert_eq!(flush(&mut left, &mut pipe), Ok(Step::Receive));
    right.frame_arrived(&pipe.pop_front().unwrap()).unwrap();
    assert_eq!(flush(&mut right, &mut pipe), Ok(Step::Receive));
    assert_eq!(
        left.frame_arrived(&pipe.pop_front().unwrap()),
        Ok(Progress::Converged)
    );
    assert_eq!(left.next_step(), Ok(Step::Finish));
    assert_eq!(left.peer_closed(), Ok(()));
    assert_eq!(left.cost().rounds, 1);
}
