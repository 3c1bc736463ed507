//! Starting gossip rounds and admitting messages.

use kitsune2_gossip::blocks::{sectors_to_arc, SECTOR_SIZE};
use kitsune2_gossip::dht_arc::DhtArc;
use kitsune2_gossip::gossip::{
    admit_module_msg, handle_gossip_message, update_storage_arcs, AdmitError, Comparison,
    ErrorCount, InitiateAction, InitiateEvent, InitiateRun, InitiateStage, Responded,
};
use kitsune2_gossip::ids::{AgentId, SpaceId};

fn state(arcs: Vec<DhtArc>) -> InitiateEvent {
    let agents = vec![AgentId::new(b"a".to_vec()), AgentId::new(b"b".to_vec())];
    InitiateEvent::LocalState(Some((agents, arcs)))
}

#[test]
fn a_round_is_initiated_step_by_step() {
    let mut run = InitiateRun::begin(100);
    assert_eq!(InitiateAction::GetLocalState, run.initiate_gossip(InitiateEvent::Busy(false)));
    let arcs = vec![sectors_to_arc(0, 2), DhtArc::Empty, sectors_to_arc(33, 34)];
    assert_eq!(InitiateAction::GetNewSince, run.initiate_gossip(state(arcs)));
    assert_eq!(
        InitiateAction::OpenRound,
        run.initiate_gossip(InitiateEvent::NewSince(Some(77)))
    );
    assert_eq!(
        InitiateAction::CheckAccepted,
        run.initiate_gossip(InitiateEvent::Round(vec![1, 2], 5, 9))
    );
    assert_eq!(
        InitiateAction::RecordAttempt,
        run.initiate_gossip(InitiateEvent::Accepted(false))
    );
    assert_eq!(
        InitiateAction::SendMessage,
        run.initiate_gossip(InitiateEvent::Recorded(true))
    );
    assert_eq!(vec![1, 2], run.message.session_id);
    assert_eq!(b"b".to_vec(), run.message.participating_agents[1].bytes);
    let mut words = vec![0u32; 16];
    words[0] = 3;
    words[1] = 2;
    assert_eq!(words, run.message.arc_set);
    assert_eq!(77, run.message.new_since);
    assert_eq!(100, run.message.max_op_data_bytes);
    assert_eq!(Some(9), run.message.dht_op_count);
    assert_eq!(5, run.message.tie_breaker);
    assert_eq!(InitiateAction::Initiated, run.initiate_gossip(InitiateEvent::Sent(true)));
    assert_eq!(InitiateStage::Finished, run.stage);
}

#[test]
fn arc_sets_are_encoded_as_the_dht_model_does() {
    let mut run = InitiateRun::begin(0);
    run.initiate_gossip(InitiateEvent::Busy(false));
    run.initiate_gossip(state(vec![DhtArc::full()]));
    let full = kitsune2_dht::ArcSet::new(vec![kitsune2_api::DhtArc::FULL]).unwrap();
    assert_eq!(full.encode(), run.message.arc_set);
}

fn after(events: Vec<InitiateEvent>) -> (InitiateStage, InitiateAction) {
    let mut run = InitiateRun::begin(0);
    let mut action = InitiateAction::GetLocalState;
    for event in events {
        action = run.initiate_gossip(event);
    }
    (run.stage, action)
}

#[test]
fn attempts_end_early() {
    let fail = (InitiateStage::Finished, InitiateAction::Fail);
    let full = || state(vec![DhtArc::full()]);
    let round = || InitiateEvent::Round(vec![], 0, 0);
    let busy = || InitiateEvent::Busy(false);
    let since = || InitiateEvent::NewSince(Some(0));
    let free = || InitiateEvent::Accepted(false);
    assert_eq!(
        (InitiateStage::Finished, InitiateAction::AlreadyInitiated),
        after(vec![InitiateEvent::Busy(true)])
    );
    assert_eq!(fail, after(vec![busy(), InitiateEvent::LocalState(None)]));
    // an arc that is no whole number of sectors long
    assert_eq!(fail, after(vec![busy(), state(vec![DhtArc::Arc(0, SECTOR_SIZE)])]));
    assert_eq!(fail, after(vec![busy(), full(), InitiateEvent::NewSince(None)]));
    assert_eq!(
        (InitiateStage::Finished, InitiateAction::AlreadyAccepted),
        after(vec![busy(), full(), since(), round(), InitiateEvent::Accepted(true)])
    );
    assert_eq!(
        fail,
        after(vec![busy(), full(), since(), round(), free(), InitiateEvent::Recorded(false)])
    );
    assert_eq!(
        fail,
        after(vec![
            busy(),
            full(),
            since(),
            round(),
            free(),
            InitiateEvent::Recorded(true),
            InitiateEvent::Sent(false)
        ])
    );
}

#[test]
fn the_words_of_the_arcs_are_taken_over() {
    let mut run = InitiateRun::begin(0);
    run.advance(InitiateEvent::Busy(false), None);
    assert_eq!(
        InitiateAction::GetNewSince,
        run.advance(state(vec![]), Some(vec![1, 2, 3]))
    );
    assert_eq!(vec![1, 2, 3], run.message.arc_set);
    let mut run = InitiateRun::begin(0);
    run.advance(InitiateEvent::Busy(false), None);
    assert_eq!(InitiateAction::Fail, run.advance(state(vec![]), None));
}

#[test]
fn messages_for_other_spaces_and_modules_are_refused() {
    let here = SpaceId { bytes: vec![1] };
    let there = SpaceId { bytes: vec![2] };
    assert!(admit_module_msg(&here, "gossip", &here, "gossip").is_ok());
    assert!(matches!(
        admit_module_msg(&here, "gossip", &there, "fetch"),
        Err(AdmitError::WrongSpace)
    ));
    assert!(matches!(
        admit_module_msg(&here, "gossip", &here, "fetch"),
        Err(AdmitError::WrongModule)
    ));
}

#[test]
fn errors_are_counted_where_they_belong() {
    assert_eq!(ErrorCount::Neither, handle_gossip_message(Responded::Fine));
    assert_eq!(
        ErrorCount::PeerBehaviorErrors,
        handle_gossip_message(Responded::PeerBehaviorError)
    );
    assert_eq!(ErrorCount::LocalErrors, handle_gossip_message(Responded::OtherError));
}

#[test]
fn storage_arcs_follow_successful_comparisons() {
    assert!(!update_storage_arcs(Comparison::CannotCompare));
    assert!(update_storage_arcs(Comparison::Identical));
    assert!(update_storage_arcs(Comparison::NewSnapshot));
    assert!(update_storage_arcs(Comparison::NewSnapshotAndHashList));
    assert!(update_storage_arcs(Comparison::HashList));
}
