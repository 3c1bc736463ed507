//! The decisions of the controller.

use kitsune2_api::Timestamp;
use kitsune2_gossip::blocks::{block_arc, covers_sector, NUM_SECTORS, SECTOR_SIZE};
use kitsune2_gossip::config::{K2ShardingConfig, K2ShardingModConfig};
use kitsune2_gossip::controller::{Effect, K2Sharding, SHARDING_MOD_NAME};
use kitsune2_gossip::coverage::PeerInfo;
use kitsune2_gossip::decide::{
    execute_intent, has_clock_fit, shrink_recheck, tick_agent, try_tick_agent, AgentControl, Claim,
    IntentChange, PendingShrink, Tick, DURATION_MAX,
};
use kitsune2_gossip::dht_arc::DhtArc;
use kitsune2_gossip::ids::{AgentId, AgentSet, SpaceId};
use kitsune2_gossip::intents::ShrinkIntent;
use kitsune2_gossip::protocol::{
    deserialize_sharding_message, serialize_sharding_message, K2ShardingMessage,
    K2ShardingShrinkIntentMessage, Msg, ShardingError,
};
use kitsune2_gossip::snapshot::{
    broadcast_targets, collect_declared, collect_gone, collect_own, count_visible, lag_estimate,
    worth_asking, LocalAgent,
};
use std::time::Duration;

const SECOND: u128 = 1_000_000_000;

fn agent(b: &'static [u8]) -> AgentId {
    AgentId::new(b.to_vec())
}

fn intent(vacate: (u32, u32)) -> ShrinkIntent {
    ShrinkIntent {
        vacate,
        expires_at: (Timestamp::now() + Duration::from_secs(60)).as_micros(),
    }
}

/// Two agents concurrently intend to vacate the same range, which
/// can only spare one of them: each sees coverage-without-self of
/// exactly R (so the other intender is one of the R). The lower id
/// must proceed and the higher id must stand down.
#[test]
fn contested_range_lowest_id_proceeds_highest_defers() {
    let r = 3;
    let cov = vec![r; NUM_SECTORS as usize];
    let vacate = (0, 8);
    let low = agent(b"aaa");
    let high = agent(b"zzz");
    let intents = vec![(low.clone(), intent(vacate)), (high.clone(), intent(vacate))];

    // The lower id ignores the higher intender: R >= R, proceed.
    assert!(shrink_recheck(&cov, &intents, &low, vacate, r));
    // The higher id counts the lower as gone: R - 1 < R, stand down.
    assert!(!shrink_recheck(&cov, &intents, &high, vacate, r));
}

/// When the range is rich enough to spare both intenders, both may
/// proceed: each decider's coverage-without-self already includes
/// the other intender, so R + 1 without me, minus the lower-id
/// intender, still clears R.
#[test]
fn rich_range_lets_both_intenders_proceed() {
    let r = 3;
    let cov = vec![r + 1; NUM_SECTORS as usize];
    let vacate = (0, 8);
    let low = agent(b"aaa");
    let high = agent(b"zzz");
    let intents = vec![(low.clone(), intent(vacate)), (high.clone(), intent(vacate))];

    assert!(shrink_recheck(&cov, &intents, &low, vacate, r));
    assert!(shrink_recheck(&cov, &intents, &high, vacate, r));
}

/// An agent's own intent record (it is in the table while pending)
/// must not count against itself.
#[test]
fn own_intent_is_not_double_counted() {
    let r = 3;
    let cov = vec![r; NUM_SECTORS as usize];
    let me = agent(b"mmm");
    let intents = vec![(me.clone(), intent((0, 8)))];
    assert!(shrink_recheck(&cov, &intents, &me, (0, 8), r));
}

/// Non-overlapping intents from lower ids in other parts of the ring
/// must not block a shrink.
#[test]
fn disjoint_intents_do_not_interfere() {
    let r = 3;
    let cov = vec![r; NUM_SECTORS as usize];
    let low = agent(b"aaa");
    let me = agent(b"mmm");
    let intents = vec![(low, intent((100, 108)))];
    assert!(shrink_recheck(&cov, &intents, &me, (0, 8), r));
}

/// A lower-id intent overlapping only part of the vacate range still
/// blocks if the overlap would fall below target.
#[test]
fn partial_overlap_blocks_when_tight() {
    let r = 3;
    let cov = vec![r; NUM_SECTORS as usize];
    let low = agent(b"aaa");
    let me = agent(b"mmm");
    // Overlaps sectors 4..8 of my 0..8 vacate range.
    let intents = vec![(low, intent((4, 12)))];
    assert!(!shrink_recheck(&cov, &intents, &me, (0, 8), r));
}

#[test]
fn an_empty_range_has_no_coverage() {
    let cov = vec![3u32; NUM_SECTORS as usize];
    assert!(!shrink_recheck(&cov, &[], &agent(b"m"), (8, 8), 1));
    assert!(shrink_recheck(&cov, &[], &agent(b"m"), (8, 8), 0));
}

/// Four of six holders intend to leave at once: only as many go as leave the
/// target behind.
#[test]
fn concurrent_shrinks_leave_the_target() {
    let target: u32 = 3;
    let holders: [&'static [u8]; 6] = [b"a", b"b", b"c", b"d", b"e", b"f"];
    let cov = vec![holders.len() as u32 - 1; NUM_SECTORS as usize];
    let vacate = (16, 32);
    let intents: Vec<_> = holders[2..]
        .iter()
        .map(|id| (agent(id), intent(vacate)))
        .collect();
    let going = holders[2..]
        .iter()
        .filter(|id| shrink_recheck(&cov, &intents, &agent(id), vacate, target))
        .count();
    assert_eq!(3, going);
    assert!(holders.len() - going >= target as usize);
}

#[test]
fn configuration_defaults() {
    let cfg = K2ShardingConfig::default();
    assert_eq!(5, cfg.target_redundancy);
    assert_eq!(25, cfg.clamp_min_peers);
    assert_eq!(5_000, cfg.check_interval_ms);
    assert_eq!(10_000, cfg.intent_min_wait_ms);
    assert_eq!(1_000, cfg.lag_floor_ms);
    assert_eq!(300_000, cfg.lag_ceiling_ms);
    assert!(!cfg.agentinfo_encoding);
    assert_eq!(5 * SECOND, cfg.check_interval());
    assert_eq!(5, K2ShardingModConfig::default().k2_sharding.target_redundancy);
}

fn config() -> K2ShardingConfig {
    K2ShardingConfig {
        target_redundancy: 2,
        clamp_min_peers: 3,
        ..K2ShardingConfig::default()
    }
}

fn tick(now: i64) -> Tick {
    Tick {
        now,
        elapsed: 5 * SECOND,
        grow_need: 5 * SECOND,
        shrink_need: 10 * SECOND,
        intent_wait: SECOND,
    }
}

fn control(home: u32, level: u8) -> AgentControl {
    AgentControl {
        home,
        declared_level: level,
        target_level: level,
        grow_acc: 0,
        shrink_acc: 0,
        pending: None,
    }
}

fn flat(n: u32) -> Vec<u32> {
    vec![n; NUM_SECTORS as usize]
}

#[test]
fn shrink_condition_must_persist() {
    let cfg = config();
    let me = agent(b"m");
    let first = tick_agent(
        &cfg,
        &me,
        control(37, 9),
        DhtArc::full(),
        &flat(3),
        &[],
        10,
        tick(1_000_000),
    );
    assert_eq!(5 * SECOND, first.ctl.shrink_acc);
    assert_eq!(0, first.ctl.grow_acc);
    assert!(first.ctl.pending.is_none() && first.claim.is_none() && first.broadcast.is_none());
    let second = tick_agent(
        &cfg,
        &me,
        first.ctl,
        DhtArc::full(),
        &flat(3),
        &[],
        10,
        tick(6_000_000),
    );
    // ten seconds is the configured minimum wait
    let pending = PendingShrink {
        execute_at: 16_000_000,
        vacate: (256, 512),
    };
    assert_eq!(Some(pending), second.ctl.pending);
    assert!(second.claim.is_none());
    match second.intent {
        IntentChange::Announce(i) => {
            assert_eq!((256, 512), i.vacate);
            assert_eq!(26_000_000, i.expires_at);
        }
        _ => panic!("no intent was announced"),
    }
    let message = deserialize_sharding_message(&second.broadcast.unwrap()).unwrap();
    match message.msg {
        Some(Msg::ShrinkIntent(i)) => {
            assert_eq!(b"m".to_vec(), i.agent_id);
            assert_eq!(256 * SECTOR_SIZE, i.vacate_start);
            assert_eq!(u32::MAX, i.vacate_end);
            assert_eq!(26_000_000, i.expires_at_us);
        }
        None => panic!("the message says nothing"),
    }
}

#[test]
fn a_longer_propagation_time_makes_the_wait_longer() {
    let mut now = tick(0);
    now.intent_wait = 25 * SECOND + 999;
    now.shrink_need = 0;
    let step = tick_agent(
        &config(),
        &agent(b"m"),
        control(37, 9),
        DhtArc::full(),
        &flat(3),
        &[],
        10,
        now,
    );
    assert_eq!(25_000_000, step.ctl.pending.unwrap().execute_at);
}

#[test]
fn shrink_condition_is_strict_and_starts_over() {
    let mut ctl = control(37, 9);
    ctl.shrink_acc = 9 * SECOND;
    let step = tick_agent(
        &config(),
        &agent(b"m"),
        ctl,
        DhtArc::full(),
        &flat(2),
        &[],
        10,
        tick(0),
    );
    assert_eq!(0, step.ctl.shrink_acc);
    assert!(step.ctl.pending.is_none());
}

#[test]
fn pending_shrink_gates_decisions_and_then_executes() {
    let cfg = config();
    let me = agent(b"m");
    let mut ctl = control(37, 9);
    ctl.pending = Some(PendingShrink {
        execute_at: 100,
        vacate: (256, 512),
    });
    // coverage is far too low, but nothing happens before the time
    let waiting = tick_agent(&cfg, &me, ctl, DhtArc::full(), &flat(0), &[], 1, tick(99));
    assert_eq!(ctl, waiting.ctl);
    assert!(waiting.claim.is_none());

    let done = tick_agent(&cfg, &me, ctl, DhtArc::full(), &flat(2), &[], 3, tick(100));
    assert_eq!(8, done.ctl.declared_level);
    assert_eq!(8, done.ctl.target_level);
    assert!(done.ctl.pending.is_none());
    assert_eq!(Some(Claim::Declare(block_arc(37, 8))), done.claim);
    assert!(matches!(done.intent, IntentChange::Forget));

    let cancelled = tick_agent(&cfg, &me, ctl, DhtArc::full(), &flat(1), &[], 3, tick(100));
    assert_eq!(control(37, 9), cancelled.ctl);
    assert!(cancelled.claim.is_none());
}

#[test]
fn arc_encoding_announces_by_narrowing_and_stands_down_by_widening() {
    let mut cfg = config();
    cfg.agentinfo_encoding = true;
    let me = agent(b"m");
    let mut now = tick(0);
    now.shrink_need = 0;
    let announced =
        tick_agent(&cfg, &me, control(37, 9), DhtArc::full(), &flat(3), &[], 10, now);
    assert_eq!(Some(Claim::Declare(block_arc(37, 8))), announced.claim);
    assert!(announced.broadcast.is_none());
    assert!(matches!(announced.intent, IntentChange::Keep));
    assert_eq!(9, announced.ctl.declared_level);

    let later = tick(announced.ctl.pending.unwrap().execute_at);
    let narrow = block_arc(37, 8);
    let executed = tick_agent(&cfg, &me, announced.ctl, narrow, &flat(2), &[], 10, later);
    assert_eq!(8, executed.ctl.declared_level);
    assert!(executed.claim.is_none());

    let cancelled = tick_agent(&cfg, &me, announced.ctl, narrow, &flat(1), &[], 10, later);
    assert_eq!(9, cancelled.ctl.declared_level);
    assert_eq!(Some(Claim::Declare(DhtArc::full())), cancelled.claim);
}

#[test]
fn unsynced_arcs_gate_decisions() {
    let mut ctl = control(37, 5);
    ctl.target_level = 6;
    let step = tick_agent(
        &config(),
        &agent(b"m"),
        ctl,
        block_arc(37, 5),
        &flat(0),
        &[],
        10,
        tick(0),
    );
    assert_eq!(ctl, step.ctl);
    assert!(step.claim.is_none());
    // once the arc has caught up, the new level is the declared one
    let step = tick_agent(
        &config(),
        &agent(b"m"),
        ctl,
        block_arc(37, 6),
        &flat(2),
        &[],
        10,
        tick(0),
    );
    assert_eq!(6, step.ctl.declared_level);
}

#[test]
fn small_networks_hold_full_arcs() {
    let cfg = config();
    let me = agent(b"m");
    let grown = tick_agent(&cfg, &me, control(37, 5), block_arc(37, 5), &flat(9), &[], 2, tick(0));
    assert_eq!(6, grown.ctl.target_level);
    assert_eq!(Some(Claim::Target(block_arc(37, 6))), grown.claim);
    let full = tick_agent(&cfg, &me, control(37, 9), DhtArc::full(), &flat(9), &[], 2, tick(0));
    assert_eq!(9, full.ctl.target_level);
    assert!(full.ctl.pending.is_none() && full.claim.is_none() && full.broadcast.is_none());
}

#[test]
fn small_networks_keep_count_of_the_conditions() {
    let cfg = config();
    let me = agent(b"m");
    let mut ctl = control(37, 9);
    ctl.shrink_acc = 100 * SECOND;
    // two copies are no more than the target: the condition does not hold
    let broken = tick_agent(&cfg, &me, ctl, DhtArc::full(), &flat(2), &[], 2, tick(0));
    assert_eq!(0, broken.ctl.shrink_acc);
    assert_eq!(control(37, 9), broken.ctl);
    // so a longer wait is ahead once the network is large enough
    let after = tick_agent(&cfg, &me, broken.ctl, DhtArc::full(), &flat(3), &[], 3, tick(0));
    assert_eq!(5 * SECOND, after.ctl.shrink_acc);
    assert!(after.ctl.pending.is_none());
    // a condition that holds keeps being counted, and nothing comes of it
    let held = tick_agent(&cfg, &me, ctl, DhtArc::full(), &flat(3), &[], 2, tick(0));
    assert_eq!(105 * SECOND, held.ctl.shrink_acc);
    assert!(held.ctl.pending.is_none() && held.claim.is_none() && held.broadcast.is_none());
}

#[test]
fn small_networks_call_due_shrinks_off() {
    let mut cfg = config();
    let me = agent(b"m");
    let mut ctl = control(37, 9);
    ctl.shrink_acc = 100 * SECOND;
    ctl.pending = Some(PendingShrink {
        execute_at: 100,
        vacate: (256, 512),
    });
    assert!(shrink_recheck(&flat(9), &[], &me, (256, 512), cfg.target_redundancy));
    let step = tick_agent(&cfg, &me, ctl, DhtArc::full(), &flat(9), &[], 2, tick(100));
    assert_eq!(control(37, 9), step.ctl);
    assert!(step.claim.is_none() && step.broadcast.is_none());
    assert!(matches!(step.intent, IntentChange::Forget));
    // before its time the shrink stays pending
    let step = tick_agent(&cfg, &me, ctl, DhtArc::full(), &flat(9), &[], 2, tick(99));
    assert_eq!(ctl, step.ctl);
    // one more peer, and it is carried out
    let step = tick_agent(&cfg, &me, ctl, DhtArc::full(), &flat(9), &[], 3, tick(100));
    assert_eq!(8, step.ctl.declared_level);
    // under the arc encoding the claim is widened back
    cfg.agentinfo_encoding = true;
    let pending = ctl.pending.unwrap();
    let step = execute_intent(&cfg, &me, ctl, pending, &flat(9), &[], 2);
    assert_eq!(control(37, 9), step.ctl);
    assert_eq!(Some(Claim::Declare(DhtArc::full())), step.claim);
}

#[test]
fn growing_wins_over_shrinking_and_sees_announced_vacates() {
    let cfg = config();
    let me = agent(b"m");
    // the sibling half of level five is [0, 32); two copies are enough
    let calm = tick_agent(&cfg, &me, control(37, 5), block_arc(37, 5), &flat(2), &[], 9, tick(0));
    assert_eq!(0, calm.ctl.grow_acc);
    // an announced vacate counts as already gone, whoever announced it
    let live = vec![(agent(b"z"), intent((0, 16)))];
    let mut cov = flat(2);
    // the half that would be dropped, [48, 64), is rich enough to shrink too
    for s in 48..64 {
        cov[s] = 9;
    }
    let mut ctl = control(37, 5);
    ctl.shrink_acc = 100 * SECOND;
    let step = tick_agent(&cfg, &me, ctl, block_arc(37, 5), &cov, &live, 9, tick(0));
    assert_eq!(6, step.ctl.target_level);
    assert_eq!(0, step.ctl.shrink_acc);
    assert_eq!(Some(Claim::Target(block_arc(37, 6))), step.claim);
    // one's own announcement does not count
    let own = vec![(agent(b"m"), intent((0, 16)))];
    let step = tick_agent(&cfg, &me, ctl, block_arc(37, 5), &cov, &own, 9, tick(0));
    assert_eq!(5, step.ctl.target_level);
    assert!(step.ctl.pending.is_some());
}

fn space() -> SpaceId {
    SpaceId {
        bytes: b"space".to_vec(),
    }
}

fn local(b: &'static [u8], loc: u32, cur_arc: DhtArc) -> LocalAgent {
    LocalAgent {
        agent: agent(b),
        loc,
        cur_arc,
    }
}

fn peer(b: &'static [u8], arc: DhtArc) -> PeerInfo {
    PeerInfo {
        agent: agent(b),
        is_tombstone: false,
        has_url: true,
        storage_arc: arc,
    }
}

fn full_peers() -> Vec<PeerInfo> {
    vec![
        peer(b"p1", DhtArc::full()),
        peer(b"p2", DhtArc::full()),
        peer(b"p3", DhtArc::full()),
        peer(b"p4", DhtArc::full()),
    ]
}

#[test]
fn a_tick_without_local_agents_does_nothing() {
    let mut sharding = K2Sharding::create(config(), space());
    sharding.intents.insert(agent(b"x"), ShrinkIntent { vacate: (0, 8), expires_at: 5 });
    let effects = sharding.check(&[], &full_peers(), &[false; 4], tick(1_000));
    assert!(effects.is_empty());
    // not even expired intents are dropped
    assert_eq!(1, sharding.intents.live(4).len());
}

#[test]
fn newcomers_start_at_the_full_arc() {
    let mut sharding = K2Sharding::create(config(), space());
    let locals = vec![local(b"m", 37 * SECTOR_SIZE, DhtArc::Empty)];
    let effects = sharding.check(&locals, &full_peers(), &[false; 4], tick(0));
    assert_eq!(1, effects.len());
    assert!(matches!(
        effects[0],
        Effect::Tell(0, Claim::Target(DhtArc::Arc(0, u32::MAX)))
    ));
    assert_eq!(Some(control(37, 9)), sharding.states.get(&b"m".to_vec()));
    // agents that have left are forgotten
    let locals = vec![local(b"n", 0, DhtArc::Empty)];
    sharding.check(&locals, &full_peers(), &[false; 4], tick(0));
    assert_eq!(None, sharding.states.get(&b"m".to_vec()));
    assert_eq!(Some(control(0, 9)), sharding.states.get(&b"n".to_vec()));
}

/// Runs ticks until a shrink of the only local agent is announced.
fn announced(sharding: &mut K2Sharding, locals: &[LocalAgent]) -> Vec<u8> {
    let peers = full_peers();
    sharding.check(locals, &peers, &[false; 4], tick(0));
    let effects = sharding.check(locals, &peers, &[false; 4], tick(5_000_000));
    match effects.into_iter().next() {
        Some(Effect::Send(message)) => message,
        _ => panic!("nothing was announced"),
    }
}

#[test]
fn the_handoff_from_announcement_to_shrink() {
    let mut sharding = K2Sharding::create(config(), space());
    let locals = vec![local(b"m", 37 * SECTOR_SIZE, DhtArc::full())];
    let message = announced(&mut sharding, &locals);
    assert_eq!(1, sharding.intents.live(0).len());

    // a peer notes the same range
    let mut other = K2Sharding::create(config(), space());
    other.recv_module_msg(6_000_000, &space(), "k2sharding", &message).unwrap();
    let noted = other.intents.live(6_000_000);
    assert_eq!(b"m".to_vec(), noted[0].0.bytes);
    assert_eq!((256, 512), noted[0].1.vacate);
    assert_eq!(25_000_000, noted[0].1.expires_at);

    // before its time nothing happens, and then the half is dropped
    assert!(sharding.check(&locals, &full_peers(), &[false; 4], tick(14_999_999)).is_empty());
    let effects = sharding.check(&locals, &full_peers(), &[false; 4], tick(15_000_000));
    assert_eq!(1, effects.len());
    match effects[0] {
        Effect::Tell(0, claim) => assert_eq!(Claim::Declare(block_arc(37, 8)), claim),
        _ => panic!("the arc was not declared"),
    }
    assert_eq!(0, sharding.intents.live(0).len());
}

#[test]
fn a_departure_calls_pending_shrinks_off() {
    let mut sharding = K2Sharding::create(config(), space());
    let locals = vec![local(b"m", 37 * SECTOR_SIZE, DhtArc::full())];
    announced(&mut sharding, &locals);
    let effects =
        sharding.check(&locals, &full_peers(), &[false, true, false, false], tick(15_000_000));
    assert!(effects.is_empty());
    let ctl = sharding.states.get(&b"m".to_vec()).unwrap();
    assert!(ctl.pending.is_none());
    assert_eq!(9, ctl.declared_level);
    assert_eq!(0, sharding.intents.live(0).len());
    assert!(sharding.last_gone.contains(&agent(b"p2")));
    assert!(sharding.last_gone.contains(&agent(b"m")));
    // the same peer staying away is no departure: the shrink is announced anew
    // once its condition has held again, with three copies by others left
    let effects =
        sharding.check(&locals, &full_peers(), &[false, true, false, false], tick(20_000_000));
    assert_eq!(1, effects.len());
    assert!(matches!(effects[0], Effect::Send(_)));
}

#[test]
fn a_fresh_tombstone_calls_pending_shrinks_off() {
    let mut sharding = K2Sharding::create(config(), space());
    let locals = vec![local(b"m", 37 * SECTOR_SIZE, DhtArc::full())];
    announced(&mut sharding, &locals);
    assert_eq!(1, sharding.intents.live(0).len());
    let mut peers = full_peers();
    peers[2].is_tombstone = true;
    let effects = sharding.check(&locals, &peers, &[false; 4], tick(15_000_000));
    assert!(effects.is_empty());
    let ctl = sharding.states.get(&b"m".to_vec()).unwrap();
    assert!(ctl.pending.is_none());
    assert_eq!(9, ctl.declared_level);
    assert_eq!(0, sharding.intents.live(0).len());
    assert!(sharding.last_gone.contains(&agent(b"p3")));
    // an old tombstone is no departure: the shrink is announced anew
    let effects = sharding.check(&locals, &peers, &[false; 4], tick(20_000_000));
    assert!(matches!(effects[..], [Effect::Send(_)]));
    let effects = sharding.check(&locals, &peers, &[false; 4], tick(30_000_000));
    assert!(matches!(effects[..], [Effect::Tell(0, Claim::Declare(_))]));
}

#[test]
fn under_the_arc_encoding_a_departure_widens_the_claim_back() {
    let mut cfg = config();
    cfg.agentinfo_encoding = true;
    let mut sharding = K2Sharding::create(cfg, space());
    let mut locals = vec![local(b"m", 37 * SECTOR_SIZE, DhtArc::full())];
    let mut now = tick(0);
    now.shrink_need = 0;
    let effects = sharding.check(&locals, &full_peers(), &[false; 4], now);
    assert_eq!(2, effects.len());
    match effects[1] {
        Effect::Tell(0, claim) => assert_eq!(Claim::Declare(block_arc(37, 8)), claim),
        _ => panic!("the arc was not narrowed"),
    }
    locals[0].cur_arc = block_arc(37, 8);
    let effects =
        sharding.check(&locals, &full_peers(), &[true, false, false, false], tick(5_000_000));
    assert_eq!(1, effects.len());
    match effects[0] {
        Effect::Tell(0, claim) => assert_eq!(Claim::Declare(DhtArc::full()), claim),
        _ => panic!("the arc was not widened"),
    }
    // the widened arc is what the agent's own decision then works on
    let ctl = sharding.states.get(&b"m".to_vec()).unwrap();
    assert_eq!(5 * SECOND, ctl.shrink_acc);
}

#[test]
fn siblings_count_for_each_other() {
    // two peers are at the target; the sibling makes it three
    let peers = vec![peer(b"p1", DhtArc::full()), peer(b"p2", DhtArc::full())];
    let mut now = tick(0);
    now.shrink_need = 0;
    let alone = vec![local(b"m", 0, DhtArc::full())];
    let mut sharding = K2Sharding::create(config(), space());
    assert_eq!(1, sharding.check(&alone, &peers, &[false; 2], now).len());
    let both = vec![local(b"m", 0, DhtArc::full()), local(b"n", 0, DhtArc::full())];
    let mut sharding = K2Sharding::create(config(), space());
    let effects = sharding.check(&both, &peers, &[false; 2], now);
    assert_eq!(4, effects.len());
    assert_eq!(2, sharding.intents.live(0).len());
}

#[test]
fn forged_intents_do_not_count() {
    // "p1" declares little, and somebody announces much in its name
    let peers = vec![
        peer(b"p1", block_arc(0, 3)),
        peer(b"p2", DhtArc::full()),
        peer(b"p3", DhtArc::full()),
    ];
    let locals = vec![local(b"m", 37 * SECTOR_SIZE, block_arc(37, 8))];
    let mut sharding = K2Sharding::create(config(), space());
    let mut ctl = control(37, 8);
    ctl.shrink_acc = 0;
    sharding.states.insert(b"m".to_vec(), ctl);
    sharding.intents.insert(agent(b"p1"), ShrinkIntent { vacate: (256, 512), expires_at: 100 });
    sharding.check(&locals, &peers, &[false; 3], tick(0));
    assert_eq!(0, sharding.states.get(&b"m".to_vec()).unwrap().grow_acc);
    // an intent over what it declares does count
    sharding.intents.insert(agent(b"p2"), ShrinkIntent { vacate: (256, 512), expires_at: 100 });
    let effects = sharding.check(&locals, &peers, &[false; 3], tick(0));
    assert_eq!(1, effects.len());
    assert_eq!(9, sharding.states.get(&b"m".to_vec()).unwrap().target_level);
}

fn announcement(start: u32, end: u32, expires: i64) -> Vec<u8> {
    serialize_sharding_message(K2ShardingMessage {
        msg: Some(Msg::ShrinkIntent(K2ShardingShrinkIntentMessage {
            agent_id: b"p".to_vec(),
            vacate_start: start,
            vacate_end: end,
            expires_at_us: expires,
        })),
    })
}

#[test]
fn implausible_announcements_are_ignored() {
    let mut sharding = K2Sharding::create(config(), space());
    let half = NUM_SECTORS / 2 * SECTOR_SIZE;
    for bytes in [
        // expired
        announcement(0, half - 1, 10),
        // the wrong way round
        announcement(half, half - 1, 20),
        // more than half the ring
        announcement(0, half, 20),
        // nothing said
        Vec::new(),
    ] {
        assert!(sharding.recv_module_msg(10, &space(), "k2sharding", &bytes).is_ok());
        assert_eq!(0, sharding.intents.live(0).len());
    }
    let good = announcement(0, half - 1, 11);
    sharding.recv_module_msg(10, &space(), "k2sharding", &good).unwrap();
    let live = sharding.intents.live(10);
    assert_eq!((0, 256), live[0].1.vacate);
}

#[test]
fn messages_for_others_are_ignored() {
    assert_eq!("k2sharding", SHARDING_MOD_NAME);
    let mut sharding = K2Sharding::create(config(), space());
    let good = announcement(0, SECTOR_SIZE - 1, 11);
    let elsewhere = SpaceId {
        bytes: b"spacf".to_vec(),
    };
    assert!(sharding.recv_module_msg(0, &elsewhere, "k2sharding", &good).is_ok());
    assert!(sharding.recv_module_msg(0, &space(), "k2shardinG", &good).is_ok());
    assert!(sharding.recv_module_msg(0, &space(), "gossip", &[10]).is_ok());
    assert_eq!(0, sharding.intents.live(0).len());
    assert_eq!(
        Err(ShardingError::BadMessage),
        sharding.recv_module_msg(0, &space(), "k2sharding", &[10])
    );
    sharding.note_message(0, K2ShardingMessage { msg: None });
    assert_eq!(0, sharding.intents.live(0).len());
}

#[test]
fn staleness_is_a_clamped_percentile() {
    let cfg = K2ShardingConfig::default();
    let none = AgentSet::new();
    let peers = full_peers();
    // no round completed yet: assume the worst
    assert_eq!(
        300 * SECOND,
        lag_estimate(&cfg, &peers, &none, &[None, None, None, None], 0)
    );
    // four values: the rank is three, the largest
    let now: i64 = 100_000_000;
    let last = [Some(now - 2_000_000), Some(now - 9_000_000), Some(now), Some(now - 5_000_000)];
    assert_eq!(9 * SECOND, lag_estimate(&cfg, &peers, &none, &last, now));
    // a time that lies ahead counts as just now, and the floor applies
    assert_eq!(
        SECOND,
        lag_estimate(&cfg, &peers, &none, &[Some(now + 7), None, None, None], now)
    );
    // excluded peers, tombstones and those without a URL are left out
    let mut gone = AgentSet::new();
    gone.insert(agent(b"p2"));
    assert_eq!(5 * SECOND, lag_estimate(&cfg, &peers, &gone, &last, now));
    let mut fewer = full_peers();
    fewer[3].is_tombstone = true;
    fewer[1].has_url = false;
    assert_eq!(2 * SECOND, lag_estimate(&cfg, &fewer, &none, &last, now));
    // the ceiling applies
    assert_eq!(
        300 * SECOND,
        lag_estimate(&cfg, &peers, &none, &[Some(now - 400_000_000), None, None, None], now)
    );
}

#[test]
fn the_ninetieth_percentile_of_twenty() {
    let cfg = K2ShardingConfig {
        lag_floor_ms: 0,
        ..K2ShardingConfig::default()
    };
    let names: [&'static [u8]; 20] = [
        b"a", b"b", b"c", b"d", b"e", b"f", b"g", b"h", b"i", b"j", b"k", b"l", b"m", b"n", b"o",
        b"p", b"q", b"r", b"s", b"t",
    ];
    let peers: Vec<PeerInfo> = names.iter().map(|n| peer(n, DhtArc::Empty)).collect();
    // ages of 0 to 19 seconds, in no order; rank eighteen
    let last: Vec<Option<i64>> = (0..20)
        .map(|i: i64| Some(50_000_000 - (i * 7 % 20) * 1_000_000))
        .collect();
    assert_eq!(
        18 * SECOND,
        lag_estimate(&cfg, &peers, &AgentSet::new(), &last, 50_000_000)
    );
}

#[test]
fn snapshots_of_peers() {
    let locals = vec![local(b"m", 0, DhtArc::full())];
    let mut peers = full_peers();
    peers[1].is_tombstone = true;
    peers[2].has_url = false;
    peers.push(peer(b"m", DhtArc::full()));
    peers.push(peer(b"p1", DhtArc::Empty));
    let silent = [false, true, true, true, false, false];
    let gone = collect_gone(&locals, &peers, &silent);
    assert!(gone.contains(&agent(b"m")));
    assert!(gone.contains(&agent(b"p4")));
    assert!(!gone.contains(&agent(b"p1")));
    assert!(gone.contains(&agent(b"p2")));
    assert!(!gone.contains(&agent(b"p3")));
    // p1 twice and p3
    assert_eq!(3, count_visible(&peers, &gone));
    // of two entries for one agent the later counts
    let declared = collect_declared(&peers);
    assert_eq!(Some(DhtArc::Empty), declared.get(&b"p1".to_vec()));
    assert_eq!(None, declared.get(&b"p2".to_vec()));
    assert_eq!(Some(DhtArc::full()), declared.get(&b"m".to_vec()));
    // told are those that are live, not local and can be reached
    let own = collect_own(&locals);
    assert_eq!(vec![0, 5], broadcast_targets(&peers, &own, &silent));
    assert_eq!(vec![0, 3, 5], broadcast_targets(&peers, &own, &[false; 6]));
}

#[test]
fn clocks_that_run_out_are_noticed() {
    let cfg = config();
    let me = agent(b"m");
    let late = tick(i64::MAX - 19_999_999);
    let mut ctl = control(37, 9);
    ctl.shrink_acc = DURATION_MAX - 5 * SECOND;
    // the condition fails, and the sum starts over
    let step = try_tick_agent(&cfg, &me, ctl, DhtArc::full(), &flat(2), &[], 9, late).unwrap();
    assert_eq!(0, step.ctl.shrink_acc);
    // the sum fits, but the times of the announcement do not
    assert!(try_tick_agent(&cfg, &me, ctl, DhtArc::full(), &flat(3), &[], 9, late).is_none());
    let step = try_tick_agent(&cfg, &me, ctl, DhtArc::full(), &flat(3), &[], 9, tick(0)).unwrap();
    assert_eq!(DURATION_MAX, step.ctl.shrink_acc);
    // the sum does not fit
    ctl.shrink_acc = DURATION_MAX - 5 * SECOND + 1;
    assert!(try_tick_agent(&cfg, &me, ctl, DhtArc::full(), &flat(3), &[], 9, tick(0)).is_none());
    // an agent that does not decide needs no room
    let step = try_tick_agent(&cfg, &me, ctl, DhtArc::Empty, &flat(3), &[], 9, late).unwrap();
    assert_eq!(ctl, step.ctl);
}

#[test]
fn a_tick_stops_where_a_clock_runs_out() {
    let mut sharding = K2Sharding::create(config(), space());
    let mut ctl = control(0, 9);
    ctl.shrink_acc = DURATION_MAX;
    sharding.states.insert(b"n".to_vec(), ctl);
    let locals = vec![
        local(b"m", 0, DhtArc::full()),
        local(b"n", 0, DhtArc::full()),
        local(b"o", 0, DhtArc::full()),
    ];
    assert!(sharding.try_check(&locals, &full_peers(), &[false; 4], tick(0)).is_none());
    // the agents before it had their turns
    assert_eq!(5 * SECOND, sharding.states.get(&b"m".to_vec()).unwrap().shrink_acc);
    assert_eq!(Some(ctl), sharding.states.get(&b"n".to_vec()));
    assert_eq!(None, sharding.states.get(&b"o".to_vec()));
    // with too few copies the condition fails, and the tick goes through
    let effects = sharding.try_check(&locals, &[], &[], tick(0)).unwrap();
    assert_eq!(1, effects.len());
    assert_eq!(0, sharding.states.get(&b"n".to_vec()).unwrap().shrink_acc);
    assert!(sharding.try_check(&[], &full_peers(), &[false; 4], tick(0)).unwrap().is_empty());
}

/// Carries effects out on a snapshot.
fn carry_out(locals: &mut [LocalAgent], effects: &[Effect]) {
    for effect in effects {
        if let Effect::Tell(i, Claim::Declare(arc)) = effect {
            locals[*i].cur_arc = *arc;
        }
    }
}

/// Whether every sector is in the arc of some agent.
fn all_held(nodes: &[Vec<LocalAgent>]) -> bool {
    (0..NUM_SECTORS).all(|s| nodes.iter().flatten().any(|a| covers_sector(&a.cur_arc, s)))
}

#[test]
fn no_sector_is_orphaned_over_many_ticks() {
    for encoding in [false, true] {
        let mut cfg = config();
        cfg.target_redundancy = 1;
        cfg.agentinfo_encoding = encoding;
        let names: [[&'static [u8]; 2]; 3] = [[b"a", b"f"], [b"b", b"e"], [b"c", b"d"]];
        let mut nodes: Vec<Vec<LocalAgent>> = Vec::new();
        let mut cores = Vec::new();
        for (n, pair) in names.iter().enumerate() {
            let loc = (n as u32 * 170) * SECTOR_SIZE;
            nodes.push(vec![
                local(pair[0], loc, DhtArc::full()),
                local(pair[1], loc + 7 * SECTOR_SIZE, DhtArc::full()),
            ]);
            cores.push(K2Sharding::create(cfg.clone(), space()));
        }
        let mut narrowed = false;
        for round in 0..60 {
            let n = round % 3;
            let now = round as i64 * 5_000_000;
            let peers: Vec<PeerInfo> = (0..3)
                .filter(|m| *m != n)
                .flat_map(|m| nodes[m].iter())
                .map(|a| PeerInfo {
                    agent: AgentId::new(a.agent.bytes.clone()),
                    is_tombstone: false,
                    has_url: true,
                    storage_arc: a.cur_arc,
                })
                .collect();
            let effects = cores[n].check(&nodes[n], &peers, &[false; 4], tick(now));
            carry_out(&mut nodes[n], &effects);
            for effect in &effects {
                if let Effect::Send(message) = effect {
                    for core in cores.iter_mut() {
                        core.recv_module_msg(now, &space(), SHARDING_MOD_NAME, message).unwrap();
                    }
                }
            }
            assert!(all_held(&nodes));
            narrowed |= nodes.iter().flatten().any(|a| a.cur_arc != DhtArc::full());
        }
        assert!(narrowed);
    }
}

#[test]
fn questions_are_asked_only_about_reachable_peers() {
    let mut own = AgentSet::new();
    own.insert(agent(b"m"));
    assert!(worth_asking(&peer(b"p", DhtArc::Empty), &own));
    assert!(!worth_asking(&peer(b"m", DhtArc::Empty), &own));
    let mut dead = peer(b"p", DhtArc::Empty);
    dead.is_tombstone = true;
    assert!(!worth_asking(&dead, &own));
    let mut silent = peer(b"p", DhtArc::Empty);
    silent.has_url = false;
    assert!(!worth_asking(&silent, &own));
}

#[test]
fn intents_only_lower_coverage_in_any_order() {
    let cov = flat(4);
    let me = agent(b"m");
    let mut intents = vec![
        (agent(b"a"), intent((0, 8))),
        (agent(b"z"), intent((0, 8))),
        (agent(b"b"), intent((4, 12))),
    ];
    // two outrank in sectors 4 to 8, and one more makes it too few
    assert!(shrink_recheck(&cov, &intents, &me, (0, 8), 2));
    assert!(!shrink_recheck(&cov, &intents, &me, (0, 8), 3));
    intents.reverse();
    assert!(shrink_recheck(&cov, &intents, &me, (0, 8), 2));
    intents.push((agent(b"c"), intent((7, 8))));
    assert!(!shrink_recheck(&cov, &intents, &me, (0, 8), 2));
    // an intent over the sibling half can start a grow, never stop one
    let grows = |live: &[(AgentId, ShrinkIntent)]| {
        tick_agent(&config(), &me, control(37, 5), block_arc(37, 5), &flat(2), live, 9, tick(0))
            .ctl
            .target_level
            == 6
    };
    assert!(!grows(&[]));
    assert!(grows(&[(agent(b"a"), intent((0, 32)))]));
    assert!(grows(&[(agent(b"a"), intent((0, 32))), (agent(b"b"), intent((64, 128)))]));
}

#[test]
fn intents_that_do_not_count_may_hold_anything() {
    let cov = flat(2);
    // "z" does not outrank "m", so its range is not looked at
    let live = vec![(agent(b"z"), intent((9, 3))), (agent(b"a"), intent((0, 4)))];
    assert!(!shrink_recheck(&cov, &live, &agent(b"m"), (0, 8), 2));
    assert!(shrink_recheck(&cov, &live, &agent(b"m"), (4, 8), 2));
}

#[test]
fn rounds_with_excluded_peers_are_not_read() {
    let mut own = AgentSet::new();
    own.insert(agent(b"m"));
    let peers = vec![peer(b"m", DhtArc::Empty), peer(b"p", DhtArc::Empty)];
    let at = [Some(i64::MIN), Some(1_000_000 * 1_000)];
    let lag = lag_estimate(&config(), &peers, &own, &at, 1_000_000 * 1_200);
    let alone = lag_estimate(&config(), &peers[1..], &own, &at[1..], 1_000_000 * 1_200);
    assert_eq!(alone, lag);
}

#[test]
fn a_turn_concerns_one_agent() {
    let mut sharding = K2Sharding::create(config(), space());
    // "n" is in sync and may shrink; "m" has not synced yet
    let locals = vec![local(b"m", 0, DhtArc::Empty), local(b"n", 0, DhtArc::full())];
    sharding.check(&locals, &full_peers(), &[false; 4], tick(0));
    assert_eq!(Some(control(0, 9)), sharding.states.get(&b"m".to_vec()));
    assert_eq!(
        5 * SECOND,
        sharding.states.get(&b"n".to_vec()).unwrap().shrink_acc
    );
}

#[test]
fn agents_do_not_count_themselves() {
    // two peers and the agent itself: without it the target is just met
    let peers = vec![peer(b"p1", DhtArc::full()), peer(b"p2", DhtArc::full())];
    let mut sharding = K2Sharding::create(config(), space());
    let mut now = tick(0);
    now.shrink_need = 0;
    let locals = vec![local(b"m", 0, DhtArc::full())];
    sharding.check(&locals, &peers, &[false; 2], now);
    assert!(sharding.states.get(&b"m".to_vec()).unwrap().pending.is_none());
}

#[test]
fn waits_that_do_not_fit_are_noticed() {
    let cfg = config();
    assert!(has_clock_fit(&cfg, tick(0)));
    // ten seconds twice
    assert!(has_clock_fit(&cfg, tick(i64::MAX - 20_000_000)));
    assert!(!has_clock_fit(&cfg, tick(i64::MAX - 19_999_999)));
    let mut long = tick(i64::MIN);
    long.intent_wait = DURATION_MAX;
    assert!(!has_clock_fit(&cfg, long));
}

#[test]
fn a_contested_range_has_one_winner() {
    let target: u32 = 3;
    let names: [&'static [u8]; 4] = [b"d", b"b", b"c", b"a"];
    let vacate = (128, 256);
    let intents: Vec<_> = names.iter().map(|id| (agent(id), intent(vacate))).collect();
    let winners: Vec<&[u8]> = names
        .into_iter()
        .filter(|id| shrink_recheck(&flat(target), &intents, &agent(id), vacate, target))
        .collect();
    assert_eq!(vec![b"a".as_slice()], winners);
}

#[test]
fn whole_turns_leave_the_target() {
    // five holders of everything, three of which are due to drop the same half
    let cfg = config();
    let names: [&'static [u8]; 3] = [b"a", b"b", b"c"];
    let live: Vec<_> = names.iter().map(|id| (agent(id), intent((256, 512)))).collect();
    let mut dropped: usize = 0;
    for id in names {
        let mut ctl = control(37, 9);
        ctl.pending = Some(PendingShrink {
            execute_at: 0,
            vacate: (256, 512),
        });
        let step = tick_agent(&cfg, &agent(id), ctl, DhtArc::full(), &flat(4), &live, 9, tick(0));
        assert!(step.ctl.declared_level == 9 || step.ctl.declared_level == 8);
        if step.ctl.declared_level == 8 {
            dropped += 1;
        }
    }
    assert_eq!(3, dropped);
    assert!(5 - dropped >= cfg.target_redundancy as usize);
}
