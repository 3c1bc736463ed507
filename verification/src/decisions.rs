//! What one decision is for, over what an agent sees: who grows, who announces
//! a shrink, who carries one out, and when.

use crate::blocks;
use crate::config;
use crate::config::K2ShardingConfig;
use crate::counting;
use crate::decide;
use crate::decide::{AgentControl, Claim, IntentChange, StepView, Tick};
use crate::dht_arc::DhtArc;
use crate::ids;
use crate::intents::ShrinkIntent;
use crate::protocol;
use vstd::arithmetic::power2::pow2;
use vstd::prelude::*;

verus! {

/// Whether a sector lies in the stretch of `2^level` sectors that holds home.
pub open spec fn shares_block(home: int, level: int, sector: int) -> bool {
    &&& 0 <= sector < 512
    &&& sector / (pow2(level as nat) as int) == home / (pow2(level as nat) as int)
}

/// Whether a sector lies in what an agent at a level has beyond the level below.
pub open spec fn in_outer_half(home: int, level: int, sector: int) -> bool {
    shares_block(home, level, sector) && !shares_block(home, level - 1, sector)
}

/// The arc of the sectors in the stretch of `2^level` sectors that holds home.
pub open spec fn home_arc(home: int, level: int) -> DhtArc {
    let w = pow2(level as nat) as int;
    let first = home / w * w;
    DhtArc::Arc((first * 0x80_0000) as u32, ((first + w) * 0x80_0000 - 1) as u32)
}

/// An agent's state makes sense: its levels are on the ring and at most one
/// apart, and a shrink that is pending is one of the block that it declares.
pub open spec fn steady(ctl: AgentControl) -> bool {
    &&& ctl.home < 512
    &&& ctl.declared_level <= ctl.target_level <= ctl.declared_level + 1
    &&& ctl.target_level <= 9
    &&& ctl.pending matches Some(pending) ==> {
        &&& ctl.target_level == ctl.declared_level
        &&& ctl.declared_level > 0
        &&& is_outer_half(pending.vacate, ctl.home as int, ctl.declared_level as int)
    }
}

/// A range is the one of what an agent at a level has beyond the level below.
pub open spec fn is_outer_half(range: (u32, u32), home: int, level: int) -> bool {
    &&& range.0 < range.1
    &&& forall|s: int|
        #![trigger in_outer_half(home, level, s)]
        range.0 <= s < range.1 <==> in_outer_half(home, level, s)
}

/// Being an intent of another agent to leave a sector.
pub open spec fn of_another_agent(id: Seq<u8>, sector: int) -> spec_fn(
    (Seq<u8>, ShrinkIntent),
) -> bool {
    |entry: (Seq<u8>, ShrinkIntent)|
        entry.0 != id && entry.1.vacate.0 <= sector < entry.1.vacate.1
}

/// Being an intent of an agent with a lower id to leave a sector.
pub open spec fn of_a_lower_id(id: Seq<u8>, sector: int) -> spec_fn(
    (Seq<u8>, ShrinkIntent),
) -> bool {
    |entry: (Seq<u8>, ShrinkIntent)|
        ids::lex_lt(entry.0, id) && entry.1.vacate.0 <= sector < entry.1.vacate.1
}

/// How many intents of other agents there are to leave a sector.
pub open spec fn departing(
    live: Seq<(Seq<u8>, ShrinkIntent)>,
    id: Seq<u8>,
    sector: int,
) -> nat {
    live.filter(of_another_agent(id, sector)).len()
}

/// How many intents of agents with a lower id there are to leave a sector.
pub open spec fn departing_first(
    live: Seq<(Seq<u8>, ShrinkIntent)>,
    id: Seq<u8>,
    sector: int,
) -> nat {
    live.filter(of_a_lower_id(id, sector)).len()
}

/// What one agent decides from.
pub struct Sight {
    pub cfg: K2ShardingConfig,
    pub id: Seq<u8>,
    pub ctl: AgentControl,
    pub cur_arc: DhtArc,
    pub cov: Seq<u32>,
    pub live: Seq<(Seq<u8>, ShrinkIntent)>,
    pub visible: int,
    pub tick: Tick,
}

impl Sight {
    /// The decision.
    pub open spec fn step(self) -> StepView {
        decide::tick_step(
            self.cfg,
            self.id,
            self.ctl,
            self.cur_arc,
            self.cov,
            self.live,
            self.visible,
            self.tick,
        )
    }

    /// The decision can be computed.
    pub open spec fn fits(self) -> bool {
        decide::turn_fits(
            self.cfg,
            self.id,
            self.ctl,
            self.cur_arc,
            self.cov,
            self.live,
            self.visible,
            self.tick,
        )
    }

    /// The agent has no shrink pending and declares, sector for sector, the
    /// block of the level that it aims at.
    pub open spec fn in_sync(self) -> bool {
        &&& self.ctl.pending is None
        &&& self.cur_arc == home_arc(self.ctl.home as int, self.ctl.target_level as int)
    }

    /// A sector that the agent would take on by growing has, once all announced
    /// vacates of others are carried out, too few holders.
    pub open spec fn finds_a_gap(self) -> bool {
        &&& self.ctl.target_level < 9
        &&& self.cfg.target_redundancy > 0
        &&& exists|s: int| #[trigger]
            in_outer_half(self.ctl.home as int, self.ctl.target_level + 1, s) && self.cov[s]
                < self.cfg.target_redundancy + departing(self.live, self.id, s)
    }

    /// All sectors that the agent would give up by shrinking have more holders
    /// than the target, without the agent.
    pub open spec fn finds_plenty(self) -> bool {
        &&& self.ctl.target_level > 0
        &&& forall|s: int| #[trigger]
            in_outer_half(self.ctl.home as int, self.ctl.target_level as int, s) ==> self.cov[s]
                > self.cfg.target_redundancy
    }

    /// Each sector of the pending vacate keeps the target without the agent and
    /// without the intenders with a lower id.
    pub open spec fn can_be_spared(self) -> bool {
        self.cfg.target_redundancy == 0 || forall|s: int| #[trigger]
            in_outer_half(self.ctl.home as int, self.ctl.declared_level as int, s) ==> self.cov[s]
                >= self.cfg.target_redundancy + departing_first(self.live, self.id, s)
    }
}

/// The blocks of sectors are those that hold home, level by level, and their
/// arcs are those of their sectors.
pub proof fn law_blocks_are_around_home(home: int, level: int, sector: int)
    requires
        0 <= home < 512,
        0 <= level <= 9,
        0 <= sector < 512,
    ensures
        blocks::in_sectors(blocks::block_at(home, level), sector) <==> shares_block(
            home,
            level,
            sector,
        ),
        blocks::block_arc_at(home, level) == home_arc(home, level),
{
    blocks::lemma_widths();
    let w = pow2(level as nat) as int;
    assert(w == blocks::width(level));
    assert(level == 0 || level == 1 || level == 2 || level == 3 || level == 4 || level == 5
        || level == 6 || level == 7 || level == 8 || level == 9);
    assert(home / w * w == home - home % w) by {
        vstd::arithmetic::div_mod::lemma_fundamental_div_mod(home, w);
        assert(home / w * w == w * (home / w)) by (nonlinear_arith);
    }
}

proof fn lemma_arcs(home: int, level: int)
    requires
        0 <= home < 512,
        0 <= level <= 9,
    ensures
        blocks::block_arc_at(home, level) == home_arc(home, level),
{
    law_blocks_are_around_home(home, level, 0);
}

proof fn lemma_half(home: int, level: int)
    requires
        0 <= home < 512,
        1 <= level <= 9,
    ensures
        forall|s: int|
            #![trigger blocks::in_sectors(blocks::vacate_at(home, level), s)]
            #![trigger in_outer_half(home, level, s)]
            blocks::in_sectors(blocks::vacate_at(home, level), s) <==> in_outer_half(
                home,
                level,
                s,
            ),
        0 <= blocks::vacate_at(home, level).0 < blocks::vacate_at(home, level).1 <= 512,
        is_outer_half(decide::vacate_range(home as u32, level as u8), home, level),
{
    blocks::law_growing_undoes_shrinking(home, level);
    blocks::law_vacate_is_at_most_half_the_ring(home, level);
    blocks::law_block_is_aligned_around_home(home, level);
    assert forall|s: int|
        #![trigger blocks::in_sectors(blocks::vacate_at(home, level), s)]
        #![trigger in_outer_half(home, level, s)]
        blocks::in_sectors(blocks::vacate_at(home, level), s) <==> in_outer_half(home, level, s) by {
        if 0 <= s < 512 {
            law_blocks_are_around_home(home, level, s);
            law_blocks_are_around_home(home, level - 1, s);
        }
    }
    let range = decide::vacate_range(home as u32, level as u8);
    assert forall|s: int|
        #![trigger in_outer_half(home, level, s)]
        range.0 <= s < range.1 <==> in_outer_half(home, level, s) by {
        assert(blocks::in_sectors(blocks::vacate_at(home, level), s) == (range.0 <= s < range.1));
    }
}

/// The states that the controller keeps are those that make sense.
pub proof fn law_states_make_sense(ctl: AgentControl)
    ensures
        ctl.wf() <==> steady(ctl),
{
    if ctl.home < 512 && 1 <= ctl.declared_level <= 9 && ctl.pending is Some {
        let home = ctl.home as int;
        let level = ctl.declared_level as int;
        lemma_half(home, level);
        let range = decide::vacate_range(ctl.home, ctl.declared_level);
        let vacate = ctl.pending->0.vacate;
        if steady(ctl) {
            assert(in_outer_half(home, level, range.0 as int));
            assert(in_outer_half(home, level, range.1 - 1));
            assert(in_outer_half(home, level, vacate.0 as int));
            assert(in_outer_half(home, level, vacate.1 - 1));
            assert(vacate == range);
        }
    }
}

proof fn lemma_departing(live: Seq<(Seq<u8>, ShrinkIntent)>, id: Seq<u8>, sector: int)
    ensures
        counting::count(live, decide::leaving(id, false, sector)) == departing(live, id, sector),
        counting::count(live, decide::leaving(id, true, sector)) == departing_first(
            live,
            id,
            sector,
        ),
{
    let all = of_another_agent(id, sector);
    let first = of_a_lower_id(id, sector);
    counting::lemma_count_agree(live, decide::leaving(id, false, sector), all);
    counting::lemma_count_agree(live, decide::leaving(id, true, sector), first);
    counting::law_count_is_the_length_of_the_filter(live, all);
    counting::law_count_is_the_length_of_the_filter(live, first);
}

proof fn lemma_conditions(sight: Sight)
    requires
        steady(sight.ctl),
    ensures
        ({
            let synced = AgentControl { declared_level: sight.ctl.target_level, ..sight.ctl };
            let target = sight.cfg.target_redundancy;
            &&& decide::wants_to_grow(sight.cov, sight.live, sight.id, synced, target)
                == sight.finds_a_gap()
            &&& decide::wants_to_shrink(sight.cov, synced, target) == sight.finds_plenty()
        }),
{
    let home = sight.ctl.home as int;
    let level = sight.ctl.target_level as int;
    let synced = AgentControl { declared_level: sight.ctl.target_level, ..sight.ctl };
    let target = sight.cfg.target_redundancy;
    if level < 9 {
        lemma_half(home, level + 1);
        if sight.finds_a_gap() {
            let s = choose|s: int| #[trigger]
                in_outer_half(home, level + 1, s) && sight.cov[s] < target + departing(
                    sight.live,
                    sight.id,
                    s,
                );
            lemma_departing(sight.live, sight.id, s);
            assert(blocks::in_sectors(blocks::sibling_at(home, level), s));
            assert(decide::copies_left(sight.cov, sight.live, sight.id, false, s) < target);
        }
        if decide::wants_to_grow(sight.cov, sight.live, sight.id, synced, target) {
            let s = choose|s: int|
                {
                    &&& blocks::in_sectors(blocks::sibling_at(home, level), s)
                    &&& #[trigger] decide::copies_left(sight.cov, sight.live, sight.id, false, s)
                        < target
                };
            lemma_departing(sight.live, sight.id, s);
            assert(blocks::in_sectors(blocks::vacate_at(home, level + 1), s));
            assert(in_outer_half(home, level + 1, s));
        }
    }
    if level > 0 {
        lemma_half(home, level);
        if sight.finds_plenty() {
            assert forall|s: int|
                blocks::in_sectors(blocks::vacate_at(home, level), s) implies #[trigger] sight.cov[s]
                > target by {
                assert(in_outer_half(home, level, s));
            }
        }
        if decide::wants_to_shrink(sight.cov, synced, target) {
            assert forall|s: int| #[trigger] in_outer_half(home, level, s) implies sight.cov[s]
                > target by {
                assert(blocks::in_sectors(blocks::vacate_at(home, level), s));
                assert(sight.cov[s] > target);
            }
        }
    }
}

/// Under-covered sectors make an agent grow. Where a sector of what it would
/// take on has fewer holders than the target, those that announced that they
/// leave not counted, the time for which that was so goes on; and once it is
/// long enough, the agent works towards the next level.
pub proof fn law_gaps_are_grown_into(sight: Sight, sector: int)
    requires
        steady(sight.ctl),
        sight.in_sync(),
        sight.fits(),
        sight.visible >= sight.cfg.clamp_min_peers,
        sight.ctl.target_level < 9,
        sight.cfg.target_redundancy > 0,
        in_outer_half(sight.ctl.home as int, sight.ctl.target_level + 1, sector),
        sight.cov[sector] < sight.cfg.target_redundancy + departing(
            sight.live,
            sight.id,
            sector,
        ),
    ensures
        ({
            let step = sight.step();
            let held = sight.ctl.grow_acc + sight.tick.elapsed;
            &&& held >= sight.tick.grow_need ==> {
                &&& step.ctl.target_level == sight.ctl.target_level + 1
                &&& step.ctl.declared_level == sight.ctl.target_level
                &&& step.ctl.pending is None
                &&& step.ctl.grow_acc == 0 && step.ctl.shrink_acc == 0
                &&& step.intent is Forget
                &&& step.claim == Some(
                    Claim::Target(
                        home_arc(sight.ctl.home as int, sight.ctl.target_level + 1),
                    ),
                )
                &&& step.broadcast is None
            }
            &&& held < sight.tick.grow_need ==> {
                &&& step.ctl.grow_acc == held
                &&& step.ctl.target_level == sight.ctl.target_level
                &&& step.ctl.declared_level == sight.ctl.target_level
                &&& !(step.claim matches Some(Claim::Target(_)))
                &&& !sight.finds_plenty() ==> step.ctl.shrink_acc == 0 && step.ctl.pending is None
                    && step.intent is Keep && step.claim is None && step.broadcast is None
            }
        }),
{
    lemma_conditions(sight);
    lemma_arcs(sight.ctl.home as int, sight.ctl.target_level as int);
    lemma_arcs(sight.ctl.home as int, sight.ctl.target_level + 1);
    assert(sight.finds_a_gap());
}

/// In particular, sectors that too few others hold make an agent grow, whatever
/// is announced, and also where nothing is.
pub proof fn law_under_covered_sectors_are_grown_into(sight: Sight, sector: int)
    requires
        steady(sight.ctl),
        sight.in_sync(),
        sight.fits(),
        sight.visible >= sight.cfg.clamp_min_peers,
        sight.ctl.target_level < 9,
        in_outer_half(sight.ctl.home as int, sight.ctl.target_level + 1, sector),
        sight.cov[sector] < sight.cfg.target_redundancy,
    ensures
        ({
            let step = sight.step();
            let held = sight.ctl.grow_acc + sight.tick.elapsed;
            &&& held >= sight.tick.grow_need ==> step.ctl.target_level == sight.ctl.target_level + 1
            &&& held < sight.tick.grow_need ==> step.ctl.grow_acc == held
        }),
{
    law_gaps_are_grown_into(sight, sector);
}

/// An agent whose network is large enough does not grow where all that it would
/// take on has enough holders, those that announced that they leave not
/// counted; and the time for which it had not starts over.
pub proof fn law_agents_grow_only_into_gaps(sight: Sight)
    requires
        steady(sight.ctl),
        sight.in_sync(),
        sight.visible >= sight.cfg.clamp_min_peers || sight.ctl.target_level == 9,
        sight.ctl.target_level == 9 || sight.cfg.target_redundancy == 0 || forall|s: int| #[trigger]
            in_outer_half(sight.ctl.home as int, sight.ctl.target_level + 1, s) ==> sight.cov[s]
                >= sight.cfg.target_redundancy + departing(sight.live, sight.id, s),
    ensures
        sight.step().ctl.grow_acc == 0,
        sight.step().ctl.target_level == sight.ctl.target_level,
        !(sight.step().claim matches Some(Claim::Target(_))),
{
    lemma_conditions(sight);
    lemma_arcs(sight.ctl.home as int, sight.ctl.target_level as int);
    assert(!sight.finds_a_gap());
}

/// Over-covered sectors make an agent announce that it leaves them. Where all
/// that it would give up has more holders than the target without it, the time
/// for which that was so goes on; and once it is long enough, and the agent does
/// not grow, the shrink is pending, whatever other agents have announced. With
/// messages, the intent is recorded and sent, and the arc is kept; under the arc
/// encoding, the narrower arc is declared at once.
pub proof fn law_plenty_is_announced(sight: Sight)
    requires
        steady(sight.ctl),
        sight.in_sync(),
        sight.fits(),
        sight.visible >= sight.cfg.clamp_min_peers,
        sight.finds_plenty(),
        !sight.finds_a_gap() || sight.ctl.grow_acc + sight.tick.elapsed < sight.tick.grow_need,
    ensures
        ({
            let step = sight.step();
            let held = sight.ctl.shrink_acc + sight.tick.elapsed;
            let home = sight.ctl.home as int;
            let level = sight.ctl.target_level as int;
            &&& step.ctl.shrink_acc == held
            &&& step.ctl.target_level == level && step.ctl.declared_level == level
            &&& held < sight.tick.shrink_need ==> step.ctl.pending is None && step.intent is Keep
                && step.claim is None && step.broadcast is None
            &&& held >= sight.tick.shrink_need ==> {
                &&& step.ctl.pending is Some
                &&& is_outer_half(step.ctl.pending->0.vacate, home, level)
                &&& !sight.cfg.agentinfo_encoding ==> {
                    &&& step.claim is None
                    &&& step.intent matches IntentChange::Announce(intent) && intent.vacate
                        == step.ctl.pending->0.vacate
                    &&& step.broadcast == Some(
                        protocol::message_bytes(
                            Some(
                                protocol::IntentMessageView {
                                    agent_id: sight.id,
                                    vacate_start: (step.ctl.pending->0.vacate.0 * 0x80_0000) as u32,
                                    vacate_end: (step.ctl.pending->0.vacate.1 * 0x80_0000
                                        - 1) as u32,
                                    expires_at_us: step.intent->Announce_0.expires_at,
                                },
                            ),
                        ),
                    )
                }
                &&& sight.cfg.agentinfo_encoding ==> {
                    &&& step.claim == Some(Claim::Declare(home_arc(home, level - 1)))
                    &&& step.intent is Keep
                    &&& step.broadcast is None
                }
            }
        }),
{
    lemma_conditions(sight);
    let home = sight.ctl.home as int;
    let level = sight.ctl.target_level as int;
    lemma_arcs(home, level);
    lemma_arcs(home, level - 1);
    lemma_half(home, level);
}

/// Nothing else makes an agent shrink: where a sector that it would give up has
/// no more holders than the target without it, the time for which all had starts
/// over, and nothing is announced or given up.
pub proof fn law_agents_announce_only_plenty(sight: Sight)
    requires
        steady(sight.ctl),
        sight.in_sync(),
        !sight.finds_plenty(),
    ensures
        sight.step().ctl.shrink_acc == 0,
        sight.step().ctl.pending is None,
        sight.step().ctl.declared_level == sight.ctl.target_level,
        sight.step().ctl.target_level >= sight.ctl.target_level,
        sight.step().broadcast is None,
        !(sight.step().intent is Announce),
        !(sight.step().claim matches Some(Claim::Declare(_))),
{
    lemma_conditions(sight);
    lemma_arcs(sight.ctl.home as int, sight.ctl.target_level as int);
}

/// An agent that is content keeps quiet: where nothing that it would take on
/// lacks holders and not all that it would give up has plenty, only its times
/// start over.
pub proof fn law_content_agents_keep_quiet(sight: Sight)
    requires
        steady(sight.ctl),
        sight.in_sync(),
        sight.visible >= sight.cfg.clamp_min_peers || sight.ctl.target_level == 9,
        !sight.finds_a_gap(),
        !sight.finds_plenty(),
    ensures
        sight.step().ctl == (AgentControl {
            declared_level: sight.ctl.target_level,
            grow_acc: 0,
            shrink_acc: 0,
            ..sight.ctl
        }),
        sight.step().intent is Keep,
        sight.step().claim is None,
        sight.step().broadcast is None,
{
    lemma_conditions(sight);
    lemma_arcs(sight.ctl.home as int, sight.ctl.target_level as int);
}

/// The home of an agent never changes.
pub proof fn law_home_is_for_good(sight: Sight)
    ensures
        sight.step().ctl.home == sight.ctl.home,
{
}

/// The times of an announcement can be computed with unless one of them leaves
/// the machine integers.
pub proof fn law_announcements_fit(cfg: K2ShardingConfig, tick: Tick)
    ensures
        ({
            let least = cfg.intent_min_wait_ms * 1_000_000;
            let wait = (if tick.intent_wait >= least {
                tick.intent_wait as int
            } else {
                least as int
            }) / 1000;
            decide::clock_fits(cfg, tick) <==> wait <= i64::MAX && tick.now + 2 * wait <= i64::MAX
        }),
{
    config::law_milliseconds(cfg.intent_min_wait_ms);
}

/// Below the clamp the conditions are still timed where the arc is full.
pub proof fn law_small_networks_time_the_conditions(sight: Sight)
    requires
        steady(sight.ctl),
        sight.in_sync(),
        sight.fits(),
        sight.visible < sight.cfg.clamp_min_peers,
        sight.ctl.target_level == 9,
        sight.finds_plenty(),
    ensures
        sight.step().ctl.shrink_acc == sight.ctl.shrink_acc + sight.tick.elapsed,
        sight.step().ctl.grow_acc == 0,
        sight.step().ctl.pending is None,
        sight.step().ctl.target_level == 9,
        sight.step().claim is None,
        sight.step().broadcast is None,
        sight.step().intent is Keep,
{
    lemma_conditions(sight);
    lemma_arcs(sight.ctl.home as int, 9);
}

/// Below the clamp an agent that holds less than everything and is in sync goes
/// one level up, at once and whatever it sees.
pub proof fn law_small_networks_grow_back(sight: Sight)
    requires
        steady(sight.ctl),
        sight.in_sync(),
        sight.visible < sight.cfg.clamp_min_peers,
        sight.ctl.target_level < 9,
    ensures
        sight.step().ctl.target_level == sight.ctl.target_level + 1,
        sight.step().ctl.declared_level == sight.ctl.target_level,
        sight.step().ctl.pending is None,
        sight.step().ctl.grow_acc == 0 && sight.step().ctl.shrink_acc == 0,
        sight.step().intent is Forget,
        sight.step().broadcast is None,
        sight.step().claim == Some(
            Claim::Target(home_arc(sight.ctl.home as int, sight.ctl.target_level + 1)),
        ),
{
    lemma_arcs(sight.ctl.home as int, sight.ctl.target_level as int);
    lemma_arcs(sight.ctl.home as int, sight.ctl.target_level + 1);
}

/// A shrink that is due is carried out if and only if enough agents are in sight
/// and each sector of it keeps the target without this agent and without the
/// intenders with a lower id. Then the agent has the next lower level and, with
/// messages, declares its arc. Otherwise it keeps its level and, under the arc
/// encoding, declares the arc of that level again. Either way nothing is pending
/// or announced any more.
pub proof fn law_due_shrinks_are_settled(sight: Sight)
    requires
        steady(sight.ctl),
        sight.ctl.pending is Some,
        sight.tick.now >= sight.ctl.pending->0.execute_at,
    ensures
        ({
            let step = sight.step();
            let home = sight.ctl.home as int;
            let level = sight.ctl.declared_level as int;
            let go = sight.visible >= sight.cfg.clamp_min_peers && sight.can_be_spared();
            &&& step.ctl.home == sight.ctl.home
            &&& step.ctl.pending is None
            &&& step.ctl.shrink_acc == 0
            &&& step.intent is Forget
            &&& step.broadcast is None
            &&& go ==> {
                &&& step.ctl.declared_level == level - 1
                &&& step.ctl.target_level == level - 1
                &&& step.ctl.grow_acc == 0
                &&& step.claim == if sight.cfg.agentinfo_encoding {
                    None
                } else {
                    Some(Claim::Declare(home_arc(home, level - 1)))
                }
            }
            &&& !go ==> {
                &&& step.ctl.declared_level == level
                &&& step.ctl.target_level == level
                &&& step.ctl.grow_acc == sight.ctl.grow_acc
                &&& step.claim == if sight.cfg.agentinfo_encoding {
                    Some(Claim::Declare(home_arc(home, level)))
                } else {
                    None
                }
            }
        }),
{
    let home = sight.ctl.home as int;
    let level = sight.ctl.declared_level as int;
    let vacate = sight.ctl.pending->0.vacate;
    let target = sight.cfg.target_redundancy;
    lemma_arcs(home, level);
    lemma_arcs(home, level - 1);
    if sight.can_be_spared() {
        assert forall|s: int| vacate.0 <= s < vacate.1 implies #[trigger] decide::copies_left(
            sight.cov,
            sight.live,
            sight.id,
            true,
            s,
        ) >= target by {
            assert(in_outer_half(home, level, s));
            lemma_departing(sight.live, sight.id, s);
        }
    }
    if decide::may_shrink(sight.cov, sight.live, sight.id, vacate, target) && target > 0 {
        assert forall|s: int| #[trigger] in_outer_half(home, level, s) implies sight.cov[s] >= target
            + departing_first(sight.live, sight.id, s) by {
            lemma_departing(sight.live, sight.id, s);
            assert(decide::copies_left(sight.cov, sight.live, sight.id, true, s) >= target);
        }
    }
}

/// While a shrink waits for its time, and while an arc has not caught up with
/// what the agent aims at, nothing happens at all.
pub proof fn law_waiting_agents_do_nothing(sight: Sight)
    requires
        steady(sight.ctl),
        sight.ctl.pending matches Some(pending) ==> sight.tick.now < pending.execute_at,
        sight.ctl.pending is None ==> sight.cur_arc != home_arc(
            sight.ctl.home as int,
            sight.ctl.target_level as int,
        ),
    ensures
        sight.step().ctl == sight.ctl,
        sight.step().intent is Keep,
        sight.step().claim is None,
        sight.step().broadcast is None,
{
    lemma_arcs(sight.ctl.home as int, sight.ctl.target_level as int);
}

/// An announced shrink waits for the propagation time or the configured
/// minimum, whichever is longer, cut to microseconds; and the announcement is
/// void after the same time again.
pub proof fn law_shrinks_wait_their_time(sight: Sight)
    requires
        steady(sight.ctl),
        sight.fits(),
        sight.ctl.pending is None,
        sight.step().ctl.pending is Some,
    ensures
        ({
            let step = sight.step();
            let wait = step.ctl.pending->0.execute_at - sight.tick.now;
            let least = sight.cfg.intent_min_wait_ms * 1_000_000;
            let longest = if sight.tick.intent_wait >= least {
                sight.tick.intent_wait as int
            } else {
                least as int
            };
            &&& wait * 1000 <= longest < (wait + 1) * 1000
            &&& step.intent matches IntentChange::Announce(intent) ==> intent.expires_at
                - step.ctl.pending->0.execute_at == wait
        }),
{
    assert(config::millis(sight.cfg.intent_min_wait_ms) == sight.cfg.intent_min_wait_ms
        * 1_000_000);
}

/// Ordinary times can be computed with: where the agent's conditions have not
/// held for some hundred billion years, and a wait twice as long as the
/// propagation time and the configured minimum together does not reach the end
/// of time.
pub proof fn law_ordinary_times_fit(sight: Sight)
    requires
        steady(sight.ctl),
        sight.ctl.grow_acc + sight.tick.elapsed <= 18_446_744_073_709_551_615_999_999_999,
        sight.ctl.shrink_acc + sight.tick.elapsed <= 18_446_744_073_709_551_615_999_999_999,
        sight.tick.now + 2 * (sight.tick.intent_wait / 1000) <= i64::MAX,
        sight.tick.now + 2 * (sight.cfg.intent_min_wait_ms * 1000) <= i64::MAX,
        sight.tick.intent_wait / 1000 <= i64::MAX,
    ensures
        sight.fits(),
{
    assert(config::millis(sight.cfg.intent_min_wait_ms) == sight.cfg.intent_min_wait_ms
        * 1_000_000);
}

/// A tick in which nothing is timed or announced needs no room for it.
pub proof fn law_idle_turns_fit(sight: Sight)
    requires
        steady(sight.ctl),
        !sight.in_sync() || !sight.finds_a_gap() && !sight.finds_plenty(),
    ensures
        sight.fits(),
{
    lemma_conditions(sight);
    lemma_arcs(sight.ctl.home as int, sight.ctl.target_level as int);
}

} // verus!
