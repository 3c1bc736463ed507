//! The decision rules for one local agent.
//!
//! Pending intents execute first, in-flight grows gate decisions, the
//! small-network clamp overrides everything, then grow and shrink conditions
//! accumulate against their persistence thresholds, with grow taking priority.
//! The clamp overrides a pending intent too: below it, one that is due stands
//! down.

use crate::blocks;
use crate::blocks::{block_arc, sectors_to_arc, sibling_half, vacate_half, MAX_LEVEL, NUM_SECTORS};
use crate::config;
use crate::config::{from_millis, K2ShardingConfig};
use crate::counting;
use crate::coverage;
use crate::coverage::{min_over, subtract_sectors};
use crate::dht_arc::DhtArc;
use crate::ids;
use crate::ids::AgentId;
use crate::intents;
use crate::intents::ShrinkIntent;
use crate::protocol;
use crate::protocol::{
    serialize_sharding_message, K2ShardingMessage, K2ShardingShrinkIntentMessage, Msg,
};
use vstd::prelude::*;

verus! {

/// The longest span of time that is counted, in nanoseconds.
pub const DURATION_MAX: u128 = 18_446_744_073_709_551_615_999_999_999;

/// An announced, not yet executed, shrink.
#[derive(Clone, Copy, Debug, PartialEq, Eq)]
pub struct PendingShrink {
    /// When to re-check and execute, in microseconds.
    pub execute_at: i64,
    /// Half-open sector range that would be vacated.
    pub vacate: (u32, u32),
}

/// Per-local-agent controller state.
#[derive(Clone, Copy, Debug, PartialEq, Eq)]
pub struct AgentControl {
    /// The agent's home sector.
    pub home: u32,
    /// The block level of the arc this agent currently declares.
    pub declared_level: u8,
    /// The block level the agent is growing towards. Greater than
    /// `declared_level` while a grow is being synced; equal otherwise.
    pub target_level: u8,
    /// How long the grow condition has held continuously, in nanoseconds.
    pub grow_acc: u128,
    /// How long the shrink condition has held continuously, in nanoseconds.
    pub shrink_acc: u128,
    /// An announced, not yet executed, shrink.
    pub pending: Option<PendingShrink>,
}

/// What happens to the agent's entry in the table of announced intents.
#[derive(Clone, Copy, Debug)]
pub enum IntentChange {
    /// Nothing.
    Keep,
    /// It is taken out.
    Forget,
    /// It becomes the given intent.
    Announce(ShrinkIntent),
}

/// What an agent is told to do with its storage arc.
#[derive(Clone, Copy, Debug, PartialEq, Eq)]
pub enum Claim {
    /// Work towards the arc.
    Target(DhtArc),
    /// Work towards the arc, hold it from now on and publish that.
    Declare(DhtArc),
}

/// The outcome of one decision.
#[derive(Debug)]
pub struct AgentStep {
    /// The agent's state from now on.
    pub ctl: AgentControl,
    /// What happens to its announced intent.
    pub intent: IntentChange,
    /// What it is told about its arc.
    pub claim: Option<Claim>,
    /// A message for every reachable peer.
    pub broadcast: Option<Vec<u8>>,
}

/// An [`AgentStep`] with its message as a sequence of bytes.
pub struct StepView {
    pub ctl: AgentControl,
    pub intent: IntentChange,
    pub claim: Option<Claim>,
    pub broadcast: Option<Seq<u8>>,
}

impl View for AgentStep {
    type V = StepView;

    open spec fn view(&self) -> StepView {
        StepView {
            ctl: self.ctl,
            intent: self.intent,
            claim: self.claim,
            broadcast: match self.broadcast {
                Some(bytes) => Some(bytes@),
                None => None,
            },
        }
    }
}

/// The clock of one controller tick.
#[derive(Clone, Copy, Debug)]
pub struct Tick {
    /// The time of the tick, in microseconds.
    pub now: i64,
    /// How much time the tick stands for, in nanoseconds.
    pub elapsed: u128,
    /// How long the grow condition must have held, in nanoseconds.
    pub grow_need: u128,
    /// How long the shrink condition must have held, in nanoseconds.
    pub shrink_need: u128,
    /// How long an announcement takes to propagate, in nanoseconds.
    pub intent_wait: u128,
}

/// The range that an agent would vacate.
pub open spec fn vacate_range(home: u32, level: u8) -> (u32, u32) {
    (
        blocks::vacate_at(home as int, level as int).0 as u32,
        blocks::vacate_at(home as int, level as int).1 as u32,
    )
}

impl AgentControl {
    /// The levels are on the ring and at most one apart. While a shrink is
    /// pending nothing grows, and what would be vacated is the half of the
    /// declared block that does not contain home.
    pub open spec fn wf(self) -> bool {
        &&& self.home < NUM_SECTORS
        &&& self.declared_level <= self.target_level <= self.declared_level + 1
        &&& self.target_level <= MAX_LEVEL
        &&& self.pending matches Some(pending) ==> {
            &&& self.target_level == self.declared_level
            &&& self.declared_level > 0
            &&& pending.vacate == vacate_range(self.home, self.declared_level)
        }
    }
}

/// Whether an intent counts for an agent: any intent of another agent, or only
/// those of agents that outrank it.
pub open spec fn counts_for(own: Seq<u8>, outranking: bool, id: Seq<u8>) -> bool {
    if outranking {
        ids::lex_lt(id, own)
    } else {
        id != own
    }
}

/// Being an intent to leave a sector that counts for an agent.
pub open spec fn leaving(own: Seq<u8>, outranking: bool, sector: int) -> spec_fn(
    (Seq<u8>, ShrinkIntent),
) -> bool {
    |entry: (Seq<u8>, ShrinkIntent)|
        blocks::in_range(entry.1.vacate, sector) && counts_for(own, outranking, entry.0)
}

/// How many copies of a sector are left once the intents that count are
/// carried out.
pub open spec fn copies_left(
    cov: Seq<u32>,
    live: Seq<(Seq<u8>, ShrinkIntent)>,
    own: Seq<u8>,
    outranking: bool,
    sector: int,
) -> int {
    coverage::saturating_minus(
        cov[sector] as int,
        counting::count(live, leaving(own, outranking, sector)) as int,
    )
}

/// Whether a shrink may proceed: every vacated sector keeps the target without
/// this agent and without the intenders that outrank it.
pub open spec fn may_shrink(
    cov: Seq<u32>,
    live: Seq<(Seq<u8>, ShrinkIntent)>,
    own: Seq<u8>,
    vacate: (u32, u32),
    target: u32,
) -> bool {
    if vacate.0 == vacate.1 {
        target == 0
    } else {
        forall|s: int|
            vacate.0 <= s < vacate.1 ==> #[trigger] copies_left(cov, live, own, true, s) >= target
    }
}

/// Whether a sector of the sibling half would be under-covered once all
/// announced vacates of others are carried out.
pub open spec fn wants_to_grow(
    cov: Seq<u32>,
    live: Seq<(Seq<u8>, ShrinkIntent)>,
    own: Seq<u8>,
    ctl: AgentControl,
    target: u32,
) -> bool {
    &&& ctl.declared_level < MAX_LEVEL
    &&& exists|s: int|
        {
            &&& blocks::in_sectors(
                blocks::sibling_at(ctl.home as int, ctl.declared_level as int),
                s,
            )
            &&& #[trigger] copies_left(cov, live, own, false, s) < target
        }
}

/// Whether the half that would be dropped stays strictly above the target
/// without this agent.
pub open spec fn wants_to_shrink(cov: Seq<u32>, ctl: AgentControl, target: u32) -> bool {
    &&& ctl.declared_level > 0
    &&& forall|s: int|
        blocks::in_sectors(blocks::vacate_at(ctl.home as int, ctl.declared_level as int), s)
            ==> #[trigger] cov[s] > target
}

/// How long an intent waits before it is carried out, in microseconds.
pub open spec fn wait_us(cfg: K2ShardingConfig, tick: Tick) -> int {
    let least = config::millis(cfg.intent_min_wait_ms) as int;
    (if tick.intent_wait >= least {
        tick.intent_wait as int
    } else {
        least
    }) / 1000
}

/// The times that a tick computes are machine integers.
pub open spec fn clock_fits(cfg: K2ShardingConfig, tick: Tick) -> bool {
    &&& wait_us(cfg, tick) <= i64::MAX
    &&& tick.now + 2 * wait_us(cfg, tick) <= i64::MAX
}

/// The conditions that hold have not held for longer than can be counted.
pub open spec fn patience_fits(
    cfg: K2ShardingConfig,
    id: Seq<u8>,
    ctl: AgentControl,
    cov: Seq<u32>,
    live: Seq<(Seq<u8>, ShrinkIntent)>,
    elapsed: u128,
) -> bool {
    &&& wants_to_grow(cov, live, id, ctl, cfg.target_redundancy) ==> ctl.grow_acc + elapsed
        <= DURATION_MAX
    &&& wants_to_shrink(cov, ctl, cfg.target_redundancy) ==> ctl.shrink_acc + elapsed
        <= DURATION_MAX
}

/// Nothing but the agent's state changes.
pub open spec fn quiet_step(ctl: AgentControl) -> StepView {
    StepView { ctl, intent: IntentChange::Keep, claim: None, broadcast: None }
}

/// Widen the target arc by one level.
pub open spec fn grow_step(ctl: AgentControl) -> StepView {
    let level = (ctl.declared_level + 1) as u8;
    StepView {
        ctl: AgentControl {
            target_level: level,
            grow_acc: 0,
            shrink_acc: 0,
            pending: None,
            ..ctl
        },
        intent: IntentChange::Forget,
        claim: Some(Claim::Target(blocks::block_arc_at(ctl.home as int, level as int))),
        broadcast: None,
    }
}

/// The message that announces an agent's shrink.
pub open spec fn announcement(id: Seq<u8>, vacate: (u32, u32), expires_at: i64) -> Seq<u8> {
    protocol::message_bytes(
        Some(
            protocol::IntentMessageView {
                agent_id: id,
                vacate_start: blocks::arc_of(vacate.0 as int, vacate.1 as int)->0,
                vacate_end: blocks::arc_of(vacate.0 as int, vacate.1 as int)->1,
                expires_at_us: expires_at,
            },
        ),
    )
}

/// Phase one of a shrink: the intent is announced, by a message or by claiming
/// the narrower arc at once, and waits for its time.
pub open spec fn announce_step(
    cfg: K2ShardingConfig,
    id: Seq<u8>,
    ctl: AgentControl,
    tick: Tick,
) -> StepView {
    let execute_at = (tick.now + wait_us(cfg, tick)) as i64;
    let expires_at = (tick.now + 2 * wait_us(cfg, tick)) as i64;
    let vacate = vacate_range(ctl.home, ctl.declared_level);
    let waiting = AgentControl { pending: Some(PendingShrink { execute_at, vacate }), ..ctl };
    if cfg.agentinfo_encoding {
        StepView {
            ctl: waiting,
            intent: IntentChange::Keep,
            claim: Some(
                Claim::Declare(blocks::block_arc_at(ctl.home as int, ctl.declared_level - 1)),
            ),
            broadcast: None,
        }
    } else {
        StepView {
            ctl: waiting,
            intent: IntentChange::Announce(ShrinkIntent { vacate, expires_at }),
            claim: None,
            broadcast: Some(announcement(id, vacate, expires_at)),
        }
    }
}

/// A pending shrink is called off. Under the arc encoding the narrower arc is
/// out already, so standing down is what has to be published.
pub open spec fn stand_down_step(cfg: K2ShardingConfig, ctl: AgentControl) -> StepView {
    StepView {
        ctl: AgentControl { shrink_acc: 0, pending: None, ..ctl },
        intent: IntentChange::Forget,
        claim: if cfg.agentinfo_encoding {
            Some(
                Claim::Declare(blocks::block_arc_at(ctl.home as int, ctl.declared_level as int)),
            )
        } else {
            None
        },
        broadcast: None,
    }
}

/// Phase two of a shrink: the half is dropped if that is still safe and the
/// network is large enough, and the agent stands down otherwise.
pub open spec fn execute_step(
    cfg: K2ShardingConfig,
    id: Seq<u8>,
    ctl: AgentControl,
    pending: PendingShrink,
    cov: Seq<u32>,
    live: Seq<(Seq<u8>, ShrinkIntent)>,
    visible_peers: int,
) -> StepView {
    if visible_peers >= cfg.clamp_min_peers && may_shrink(
        cov,
        live,
        id,
        pending.vacate,
        cfg.target_redundancy,
    ) {
        let level = (ctl.declared_level - 1) as u8;
        StepView {
            ctl: AgentControl {
                declared_level: level,
                target_level: level,
                grow_acc: 0,
                shrink_acc: 0,
                pending: None,
                ..ctl
            },
            intent: IntentChange::Forget,
            claim: if cfg.agentinfo_encoding {
                None
            } else {
                Some(Claim::Declare(blocks::block_arc_at(ctl.home as int, level as int)))
            },
            broadcast: None,
        }
    } else {
        stand_down_step(cfg, ctl)
    }
}

/// The agent's state once this tick's conditions are added up.
pub open spec fn accumulated(
    cfg: K2ShardingConfig,
    id: Seq<u8>,
    ctl: AgentControl,
    cov: Seq<u32>,
    live: Seq<(Seq<u8>, ShrinkIntent)>,
    elapsed: u128,
) -> AgentControl {
    AgentControl {
        grow_acc: if wants_to_grow(cov, live, id, ctl, cfg.target_redundancy) {
            (ctl.grow_acc + elapsed) as u128
        } else {
            0
        },
        shrink_acc: if wants_to_shrink(cov, ctl, cfg.target_redundancy) {
            (ctl.shrink_acc + elapsed) as u128
        } else {
            0
        },
        ..ctl
    }
}

/// The decision for one agent.
pub open spec fn tick_step(
    cfg: K2ShardingConfig,
    id: Seq<u8>,
    ctl: AgentControl,
    cur_arc: DhtArc,
    cov: Seq<u32>,
    live: Seq<(Seq<u8>, ShrinkIntent)>,
    visible_peers: int,
    tick: Tick,
) -> StepView {
    if ctl.pending is Some {
        if tick.now >= ctl.pending->0.execute_at {
            execute_step(cfg, id, ctl, ctl.pending->0, cov, live, visible_peers)
        } else {
            quiet_step(ctl)
        }
    } else if cur_arc != blocks::block_arc_at(ctl.home as int, ctl.target_level as int) {
        quiet_step(ctl)
    } else {
        let synced = AgentControl { declared_level: ctl.target_level, ..ctl };
        let next = accumulated(cfg, id, synced, cov, live, tick.elapsed);
        if visible_peers < cfg.clamp_min_peers {
            if synced.declared_level < MAX_LEVEL {
                grow_step(synced)
            } else {
                quiet_step(next)
            }
        } else if wants_to_grow(cov, live, id, synced, cfg.target_redundancy) && next.grow_acc
            >= tick.grow_need {
            grow_step(next)
        } else if wants_to_shrink(cov, synced, cfg.target_redundancy) && next.shrink_acc
            >= tick.shrink_need {
            announce_step(cfg, id, next, tick)
        } else {
            quiet_step(next)
        }
    }
}

/// Whether an agent makes a fresh decision in a tick: no shrink of it is
/// pending and its arc is in sync.
pub open spec fn decides_afresh(ctl: AgentControl, cur_arc: DhtArc) -> bool {
    &&& ctl.pending is None
    &&& cur_arc == blocks::block_arc_at(ctl.home as int, ctl.target_level as int)
}

/// What a tick computes for an agent are machine integers: the time for which
/// a condition has held, where it is counted, and the times of an announcement,
/// where there is one.
pub open spec fn turn_fits(
    cfg: K2ShardingConfig,
    id: Seq<u8>,
    ctl: AgentControl,
    cur_arc: DhtArc,
    cov: Seq<u32>,
    live: Seq<(Seq<u8>, ShrinkIntent)>,
    visible_peers: int,
    tick: Tick,
) -> bool {
    let synced = AgentControl { declared_level: ctl.target_level, ..ctl };
    let step = tick_step(cfg, id, ctl, cur_arc, cov, live, visible_peers, tick);
    let counts = visible_peers >= cfg.clamp_min_peers || synced.declared_level >= MAX_LEVEL;
    decides_afresh(ctl, cur_arc) && counts ==> {
        &&& patience_fits(cfg, id, synced, cov, live, tick.elapsed)
        &&& step.ctl.pending is Some ==> clock_fits(cfg, tick)
    }
}

/// No intent that counts for an agent has its range the wrong way round.
pub open spec fn ordered_ranges(
    live: Seq<(Seq<u8>, ShrinkIntent)>,
    own: Seq<u8>,
    outranking: bool,
) -> bool {
    forall|i: int|
        0 <= i < live.len() && counts_for(own, outranking, (#[trigger] live[i]).0)
            ==> live[i].1.vacate.0 <= live[i].1.vacate.1
}

/// Ranges that are ordered for all other agents are so for those that outrank.
proof fn lemma_outranking_ordered(live: Seq<(Seq<u8>, ShrinkIntent)>, own: Seq<u8>)
    requires
        ordered_ranges(live, own, false),
    ensures
        ordered_ranges(live, own, true),
{
    ids::law_order_is_irreflexive(own);
}

/// Coverage once the intents that count for an agent are carried out.
fn discounted(
    cov: &[u32],
    live: &[(AgentId, ShrinkIntent)],
    own: &AgentId,
    outranking: bool,
) -> (eff: Vec<u32>)
    requires
        ordered_ranges(intents::intent_views(live@), own@, outranking),
    ensures
        eff@.len() == cov@.len(),
        forall|s: int|
            0 <= s < cov@.len() ==> #[trigger] eff@[s] == copies_left(
                cov@,
                intents::intent_views(live@),
                own@,
                outranking,
                s,
            ),
{
    let ghost views = intents::intent_views(live@);
    let mut eff: Vec<u32> = Vec::new();
    let mut n: usize = 0;
    while n < cov.len()
        invariant
            n <= cov@.len(),
            eff@ == cov@.take(n as int),
        decreases cov@.len() - n,
    {
        eff.push(cov[n]);
        n = n + 1;
        assert(cov@.take(n as int) =~= cov@.take(n - 1).push(cov@[n - 1]));
    }
    assert(cov@.take(n as int) =~= cov@);
    let mut i: usize = 0;
    assert(views.take(0) =~= Seq::<(Seq<u8>, ShrinkIntent)>::empty());
    while i < live.len()
        invariant
            i <= live@.len(),
            views == intents::intent_views(live@),
            ordered_ranges(views, own@, outranking),
            eff@.len() == cov@.len(),
            forall|s: int|
                0 <= s < cov@.len() ==> #[trigger] eff@[s] == copies_left(
                    cov@,
                    views.take(i as int),
                    own@,
                    outranking,
                    s,
                ),
        decreases live@.len() - i,
    {
        let ghost before = eff@;
        let counts = if outranking {
            live[i].0.precedes(own)
        } else {
            !live[i].0.same(own)
        };
        let vacate = live[i].1.vacate;
        assert(views[i as int] == (live@[i as int].0@, live@[i as int].1));
        if counts {
            subtract_sectors(&mut eff, vacate.0, vacate.1);
        }
        proof {
            assert forall|s: int| 0 <= s < cov@.len() implies #[trigger] eff@[s] == copies_left(
                cov@,
                views.take(i + 1),
                own@,
                outranking,
                s,
            ) by {
                counting::lemma_count_take(views, leaving(own@, outranking, s), i as int);
                assert(before[s] == copies_left(cov@, views.take(i as int), own@, outranking, s));
            }
        }
        i = i + 1;
    }
    assert(views.take(i as int) =~= views);
    eff
}

/// Phase two of a polite shrink: with coverage as currently seen (excluding
/// self), and this agent's announced vacate range, decides whether the shrink
/// may proceed.
///
/// Announced intenders with a lower agent id are counted as already gone;
/// intenders with a higher id are ignored, because they will count this agent
/// as gone and defer if the range cannot spare both.
pub fn shrink_recheck(
    cov: &[u32],
    live_intents: &[(AgentId, ShrinkIntent)],
    own_id: &AgentId,
    vacate: (u32, u32),
    target_redundancy: u32,
) -> (proceed: bool)
    requires
        ordered_ranges(intents::intent_views(live_intents@), own_id@, true),
        vacate.0 <= vacate.1 <= cov@.len(),
    ensures
        proceed == may_shrink(
            cov@,
            intents::intent_views(live_intents@),
            own_id@,
            vacate,
            target_redundancy,
        ),
{
    let eff = discounted(cov, live_intents, own_id, true);
    let least = min_over(&eff, vacate.0, vacate.1);
    proof {
        let live = intents::intent_views(live_intents@);
        if vacate.0 < vacate.1 {
            assert forall|s: int| vacate.0 <= s < vacate.1 implies least <= #[trigger] copies_left(
                cov@,
                live,
                own_id@,
                true,
                s,
            ) by {
                assert(eff@[s] == copies_left(cov@, live, own_id@, true, s));
            }
            let low = choose|s: int| vacate.0 <= s < vacate.1 && least == #[trigger] eff@[s];
            assert(copies_left(cov@, live, own_id@, true, low) == least);
        }
    }
    least >= target_redundancy
}

proof fn lemma_halves_on_ring(ctl: AgentControl)
    requires
        ctl.wf(),
    ensures
        blocks::block_fits(ctl.home as int, ctl.declared_level as int),
        ctl.declared_level < MAX_LEVEL ==> {
            let half = blocks::sibling_at(ctl.home as int, ctl.declared_level as int);
            &&& blocks::block_fits(ctl.home as int, ctl.declared_level + 1)
            &&& 0 <= half.0 < half.1 <= NUM_SECTORS
        },
        ctl.declared_level > 0 ==> {
            let half = blocks::vacate_at(ctl.home as int, ctl.declared_level as int);
            &&& blocks::block_fits(ctl.home as int, ctl.declared_level - 1)
            &&& 0 <= half.0 < half.1 <= NUM_SECTORS
            &&& half.0 == vacate_range(ctl.home, ctl.declared_level).0
            &&& half.1 == vacate_range(ctl.home, ctl.declared_level).1
        },
{
    let home = ctl.home as int;
    let level = ctl.declared_level as int;
    blocks::law_block_is_aligned_around_home(home, level);
    if level < MAX_LEVEL {
        blocks::law_block_is_aligned_around_home(home, level + 1);
        blocks::law_sibling_completes_parent(home, level);
    }
    if level > 0 {
        blocks::law_block_is_aligned_around_home(home, level - 1);
        blocks::law_sibling_completes_parent(home, level - 1);
    }
}

/// Widens the target arc by one level; the gossip sync machinery grows the
/// declared arc to match as sectors verify.
pub fn start_grow(ctl: AgentControl) -> (step: AgentStep)
    requires
        ctl.wf(),
        ctl.declared_level < MAX_LEVEL,
    ensures
        step@ == grow_step(ctl),
        step.ctl.wf(),
{
    let mut ctl = ctl;
    ctl.target_level = ctl.declared_level + 1;
    ctl.grow_acc = 0;
    ctl.shrink_acc = 0;
    ctl.pending = None;
    let arc = block_arc(ctl.home, ctl.target_level);
    AgentStep {
        ctl,
        intent: IntentChange::Forget,
        claim: Some(Claim::Target(arc)),
        broadcast: None,
    }
}

/// Whether the times that a tick computes are machine integers.
pub fn has_clock_fit(cfg: &K2ShardingConfig, tick: Tick) -> (fits: bool)
    ensures
        fits == clock_fits(*cfg, tick),
{
    let least: u128 = from_millis(cfg.intent_min_wait_ms);
    let wait: u128 = if tick.intent_wait >= least {
        tick.intent_wait
    } else {
        least
    };
    let wait_micros: u128 = wait / 1000;
    wait_micros <= i64::MAX as u128 && tick.now as i128 + 2 * (wait_micros as i128)
        <= i64::MAX as i128
}

/// Phase one of a shrink: announces the intent and starts the clock.
pub fn announce_shrink(
    cfg: &K2ShardingConfig,
    agent: &AgentId,
    ctl: AgentControl,
    tick: Tick,
) -> (step: AgentStep)
    requires
        ctl.wf(),
        ctl.declared_level == ctl.target_level,
        ctl.declared_level > 0,
        clock_fits(*cfg, tick),
    ensures
        step@ == announce_step(*cfg, agent@, ctl, tick),
        step.ctl.wf(),
        step.intent matches IntentChange::Announce(intent) ==> intents::on_ring(intent.vacate),
{
    let least: u128 = from_millis(cfg.intent_min_wait_ms);
    let wait: u128 = if tick.intent_wait >= least {
        tick.intent_wait
    } else {
        least
    };
    let wait_micros: i64 = (wait / 1000) as i64;
    let execute_at: i64 = tick.now + wait_micros;
    // Keep the intent visible for a grace period past execution so growers
    // stay conservative while the shrink propagates.
    let expires_at: i64 = execute_at + wait_micros;
    proof {
        lemma_halves_on_ring(ctl);
    }
    let vacate = vacate_half(ctl.home, ctl.declared_level);
    assert(vacate == vacate_range(ctl.home, ctl.declared_level));
    let mut next = ctl;
    next.pending = Some(PendingShrink { execute_at, vacate });
    if cfg.agentinfo_encoding {
        // The announcement is the arc claim: the reduced arc is published now.
        // `declared_level` still holds the level before the shrink, so that no
        // further decision is made until this resolves.
        let arc = block_arc(ctl.home, ctl.declared_level - 1);
        return AgentStep {
            ctl: next,
            intent: IntentChange::Keep,
            claim: Some(Claim::Declare(arc)),
            broadcast: None,
        };
    }
    let (vacate_start, vacate_end) = match sectors_to_arc(vacate.0, vacate.1) {
        DhtArc::Arc(start, end) => (start, end),
        DhtArc::Empty => (0, 0),
    };
    let message = serialize_sharding_message(
        K2ShardingMessage {
            msg: Some(
                Msg::ShrinkIntent(
                    K2ShardingShrinkIntentMessage {
                        agent_id: agent.clone().bytes,
                        vacate_start,
                        vacate_end,
                        expires_at_us: expires_at,
                    },
                ),
            ),
        },
    );
    AgentStep {
        ctl: next,
        intent: IntentChange::Announce(ShrinkIntent { vacate, expires_at }),
        claim: None,
        broadcast: Some(message),
    }
}

/// Phase two: re-checks with fresher information, counting announced intenders
/// that outrank the agent as already gone. If it still holds and the network is
/// large enough, drops the vacated half; otherwise stands down.
pub fn execute_intent(
    cfg: &K2ShardingConfig,
    agent: &AgentId,
    ctl: AgentControl,
    pending: PendingShrink,
    cov: &[u32],
    live_intents: &[(AgentId, ShrinkIntent)],
    visible_peers: u32,
) -> (step: AgentStep)
    requires
        ctl.wf(),
        ctl.pending == Some(pending),
        cov@.len() == NUM_SECTORS,
        ordered_ranges(intents::intent_views(live_intents@), agent@, true),
    ensures
        step@ == execute_step(
            *cfg,
            agent@,
            ctl,
            pending,
            cov@,
            intents::intent_views(live_intents@),
            visible_peers as int,
        ),
        step.ctl.wf(),
{
    proof {
        lemma_halves_on_ring(ctl);
    }
    let mut next = ctl;
    next.pending = None;
    next.shrink_acc = 0;
    // The small-network clamp overrides everything: below it nobody shrinks.
    if visible_peers >= cfg.clamp_min_peers && shrink_recheck(
        cov,
        live_intents,
        agent,
        pending.vacate,
        cfg.target_redundancy,
    ) {
        next.declared_level = ctl.declared_level - 1;
        next.target_level = next.declared_level;
        next.grow_acc = 0;
        let claim = if cfg.agentinfo_encoding {
            None
        } else {
            Some(Claim::Declare(block_arc(next.home, next.declared_level)))
        };
        AgentStep { ctl: next, intent: IntentChange::Forget, claim, broadcast: None }
    } else {
        // Someone who outranks us is going, or the world changed.
        let claim = if cfg.agentinfo_encoding {
            Some(Claim::Declare(block_arc(next.home, next.declared_level)))
        } else {
            None
        };
        AgentStep { ctl: next, intent: IntentChange::Forget, claim, broadcast: None }
    }
}

/// Would the sibling half be under-covered? Announced vacates count as already
/// gone, so that the agent moves before the hole opens.
fn grow_condition(
    cfg: &K2ShardingConfig,
    agent: &AgentId,
    ctl: AgentControl,
    cov: &[u32],
    live_intents: &[(AgentId, ShrinkIntent)],
) -> (wanted: bool)
    requires
        ctl.wf(),
        cov@.len() == NUM_SECTORS,
        ordered_ranges(intents::intent_views(live_intents@), agent@, false),
    ensures
        wanted == wants_to_grow(
            cov@,
            intents::intent_views(live_intents@),
            agent@,
            ctl,
            cfg.target_redundancy,
        ),
{
    if ctl.declared_level >= MAX_LEVEL {
        return false;
    }
    proof {
        lemma_halves_on_ring(ctl);
    }
    let eff = discounted(cov, live_intents, agent, false);
    let (ws, we) = sibling_half(ctl.home, ctl.declared_level);
    let least = min_over(&eff, ws, we);
    proof {
        let live = intents::intent_views(live_intents@);
        assert forall|s: int| ws <= s < we implies least <= #[trigger] copies_left(
            cov@,
            live,
            agent@,
            false,
            s,
        ) by {
            assert(eff@[s] == copies_left(cov@, live, agent@, false, s));
        }
        let low = choose|s: int| ws <= s < we && least == #[trigger] eff@[s];
        assert(copies_left(cov@, live, agent@, false, low) == least);
        assert(blocks::in_sectors(
            blocks::sibling_at(ctl.home as int, ctl.declared_level as int),
            low,
        ));
    }
    least < cfg.target_redundancy
}

/// Does the half that would be dropped stay strictly above the target without
/// this agent?
fn shrink_condition(cfg: &K2ShardingConfig, ctl: AgentControl, cov: &[u32]) -> (wanted: bool)
    requires
        ctl.wf(),
        cov@.len() == NUM_SECTORS,
    ensures
        wanted == wants_to_shrink(cov@, ctl, cfg.target_redundancy),
{
    if ctl.declared_level == 0 {
        return false;
    }
    proof {
        lemma_halves_on_ring(ctl);
    }
    let (vs, ve) = vacate_half(ctl.home, ctl.declared_level);
    let least = min_over(cov, vs, ve);
    proof {
        let low = choose|s: int| vs <= s < ve && least == #[trigger] cov@[s];
        assert(blocks::in_sectors(
            blocks::vacate_at(ctl.home as int, ctl.declared_level as int),
            low,
        ));
    }
    least > cfg.target_redundancy
}

/// The decision rules for one agent, unless a time that they compute is no
/// machine integer.
pub fn try_tick_agent(
    cfg: &K2ShardingConfig,
    agent: &AgentId,
    ctl: AgentControl,
    cur_arc: DhtArc,
    cov: &[u32],
    live_intents: &[(AgentId, ShrinkIntent)],
    visible_peers: u32,
    tick: Tick,
) -> (out: Option<AgentStep>)
    requires
        ctl.wf(),
        cov@.len() == NUM_SECTORS,
        ordered_ranges(intents::intent_views(live_intents@), agent@, false),
    ensures
        ({
            let live = intents::intent_views(live_intents@);
            let visible = visible_peers as int;
            match out {
                Some(step) => {
                    &&& turn_fits(*cfg, agent@, ctl, cur_arc, cov@, live, visible, tick)
                    &&& step@ == tick_step(*cfg, agent@, ctl, cur_arc, cov@, live, visible, tick)
                    &&& step.ctl.wf()
                    &&& step.intent matches IntentChange::Announce(intent) ==> intents::on_ring(
                        intent.vacate,
                    )
                },
                None => !turn_fits(*cfg, agent@, ctl, cur_arc, cov@, live, visible, tick),
            }
        }),
{
    // Phase two of an announced shrink; no other decisions while an intent is
    // pending.
    if let Some(pending) = ctl.pending {
        if tick.now >= pending.execute_at {
            proof {
                lemma_outranking_ordered(intents::intent_views(live_intents@), agent@);
            }
            return Some(
                execute_intent(cfg, agent, ctl, pending, cov, live_intents, visible_peers),
            );
        }
        return Some(quiet(ctl));
    }
    // The declared arc must have caught up with the model before any decision:
    // deciding from an arc that is not actually held could shrink the agent
    // onto data it never synced.
    if cur_arc != block_arc(ctl.home, ctl.target_level) {
        return Some(quiet(ctl));
    }
    let mut ctl = ctl;
    ctl.declared_level = ctl.target_level;
    // Small-network clamp: too few visible peers, hold a full arc.
    let clamped = visible_peers < cfg.clamp_min_peers;
    if clamped && ctl.declared_level < MAX_LEVEL {
        return Some(start_grow(ctl));
    }
    let grow_cond = grow_condition(cfg, agent, ctl, cov, live_intents);
    let shrink_cond = shrink_condition(cfg, ctl, cov);
    if (grow_cond && !sum_fits(ctl.grow_acc, tick.elapsed)) || (shrink_cond && !sum_fits(
        ctl.shrink_acc,
        tick.elapsed,
    )) {
        return None;
    }
    ctl.grow_acc = if grow_cond {
        ctl.grow_acc + tick.elapsed
    } else {
        0
    };
    ctl.shrink_acc = if shrink_cond {
        ctl.shrink_acc + tick.elapsed
    } else {
        0
    };
    if clamped {
        return Some(quiet(ctl));
    }
    if grow_cond && ctl.grow_acc >= tick.grow_need {
        // Safety first: growing wins over shrinking.
        Some(start_grow(ctl))
    } else if shrink_cond && ctl.shrink_acc >= tick.shrink_need {
        if !has_clock_fit(cfg, tick) {
            return None;
        }
        Some(announce_shrink(cfg, agent, ctl, tick))
    } else {
        Some(quiet(ctl))
    }
}

/// Whether a span of time can be added to another.
fn sum_fits(span: u128, more: u128) -> (fits: bool)
    ensures
        fits == (span + more <= DURATION_MAX),
{
    more <= DURATION_MAX && span <= DURATION_MAX - more
}

/// Nothing but the agent's state changes.
fn quiet(ctl: AgentControl) -> (step: AgentStep)
    ensures
        step@ == quiet_step(ctl),
        step.ctl == ctl,
        step.intent is Keep,
{
    AgentStep { ctl, intent: IntentChange::Keep, claim: None, broadcast: None }
}

/// The decision rules for one agent.
pub fn tick_agent(
    cfg: &K2ShardingConfig,
    agent: &AgentId,
    ctl: AgentControl,
    cur_arc: DhtArc,
    cov: &[u32],
    live_intents: &[(AgentId, ShrinkIntent)],
    visible_peers: u32,
    tick: Tick,
) -> (step: AgentStep)
    requires
        ctl.wf(),
        cov@.len() == NUM_SECTORS,
        ordered_ranges(intents::intent_views(live_intents@), agent@, false),
        turn_fits(
            *cfg,
            agent@,
            ctl,
            cur_arc,
            cov@,
            intents::intent_views(live_intents@),
            visible_peers as int,
            tick,
        ),
    ensures
        step@ == tick_step(
            *cfg,
            agent@,
            ctl,
            cur_arc,
            cov@,
            intents::intent_views(live_intents@),
            visible_peers as int,
            tick,
        ),
        step.ctl.wf(),
        step.intent matches IntentChange::Announce(intent) ==> intents::on_ring(intent.vacate),
{
    match try_tick_agent(
        cfg,
        agent,
        ctl,
        cur_arc,
        cov,
        live_intents,
        visible_peers,
        tick,
    ) {
        Some(step) => step,
        None => quiet(ctl),
    }
}

} // verus!
