//! What holds of every decision of the controller.

use crate::blocks;
use crate::blocks::{MAX_LEVEL, NUM_SECTORS};
use crate::config;
use crate::config::K2ShardingConfig;
use crate::controller;
use crate::controller::{Pass, Surroundings};
use crate::counting;
use crate::coverage;
use crate::coverage::PeerView;
use crate::decide;
use crate::decide::{AgentControl, Claim, IntentChange, Tick};
use crate::dht_arc::DhtArc;
use crate::intents;
use crate::intents::ShrinkIntent;
use crate::protocol;
use crate::snapshot;
use vstd::prelude::*;

verus! {

/// While an announced shrink waits for its time, no other decision is made.
pub proof fn law_pending_shrink_gates_decisions(
    cfg: K2ShardingConfig,
    id: Seq<u8>,
    ctl: AgentControl,
    cur_arc: DhtArc,
    cov: Seq<u32>,
    live: Seq<(Seq<u8>, ShrinkIntent)>,
    visible: int,
    tick: Tick,
)
    requires
        ctl.pending is Some,
        tick.now < ctl.pending->0.execute_at,
    ensures
        decide::tick_step(cfg, id, ctl, cur_arc, cov, live, visible, tick) == decide::quiet_step(
            ctl,
        ),
{
}

/// While the declared arc has not caught up with the target, no decision is
/// made.
pub proof fn law_unsynced_arc_gates_decisions(
    cfg: K2ShardingConfig,
    id: Seq<u8>,
    ctl: AgentControl,
    cur_arc: DhtArc,
    cov: Seq<u32>,
    live: Seq<(Seq<u8>, ShrinkIntent)>,
    visible: int,
    tick: Tick,
)
    requires
        ctl.pending is None,
        cur_arc != blocks::block_arc_at(ctl.home as int, ctl.target_level as int),
    ensures
        decide::tick_step(cfg, id, ctl, cur_arc, cov, live, visible, tick) == decide::quiet_step(
            ctl,
        ),
{
}

/// Below the configured number of visible peers nobody shrinks: no shrink is
/// announced, one that is pending is not carried out, and no arc narrower than
/// the agent's level is declared. An agent whose arc is in sync grows until its
/// arc is full.
pub proof fn law_small_networks_do_not_shard(
    cfg: K2ShardingConfig,
    id: Seq<u8>,
    ctl: AgentControl,
    cur_arc: DhtArc,
    cov: Seq<u32>,
    live: Seq<(Seq<u8>, ShrinkIntent)>,
    visible: int,
    tick: Tick,
)
    requires
        ctl.wf(),
        visible < cfg.clamp_min_peers,
    ensures
        ({
            let step = decide::tick_step(cfg, id, ctl, cur_arc, cov, live, visible, tick);
            &&& step.ctl.pending is Some ==> step.ctl.pending == ctl.pending
            &&& step.broadcast is None
            &&& step.ctl.declared_level >= ctl.declared_level
            &&& step.ctl.target_level >= ctl.target_level
            &&& step.claim matches Some(Claim::Declare(arc)) ==> arc == blocks::block_arc_at(
                ctl.home as int,
                ctl.declared_level as int,
            )
            &&& ctl.pending is Some && tick.now >= ctl.pending->0.execute_at ==> {
                &&& step.ctl.pending is None
                &&& step.intent is Forget
                &&& step.ctl.declared_level == ctl.declared_level
                &&& step.claim is Some == cfg.agentinfo_encoding
            }
            &&& decide::decides_afresh(ctl, cur_arc) && ctl.target_level < MAX_LEVEL
                ==> step.ctl.target_level == ctl.target_level + 1
        }),
{
}

/// The accumulated times are of conditions that hold: after a tick in which an
/// agent decides afresh, each is positive only if its condition held in that
/// tick; and carrying a shrink out or calling it off clears that of the shrink.
pub proof fn law_patience_follows_the_conditions(
    cfg: K2ShardingConfig,
    id: Seq<u8>,
    ctl: AgentControl,
    cur_arc: DhtArc,
    cov: Seq<u32>,
    live: Seq<(Seq<u8>, ShrinkIntent)>,
    visible: int,
    tick: Tick,
)
    requires
        ctl.wf(),
    ensures
        ({
            let next = decide::tick_step(cfg, id, ctl, cur_arc, cov, live, visible, tick).ctl;
            let synced = AgentControl { declared_level: ctl.target_level, ..ctl };
            &&& decide::decides_afresh(ctl, cur_arc) ==> {
                &&& next.grow_acc > 0 ==> decide::wants_to_grow(
                    cov,
                    live,
                    id,
                    synced,
                    cfg.target_redundancy,
                )
                &&& next.shrink_acc > 0 ==> decide::wants_to_shrink(
                    cov,
                    synced,
                    cfg.target_redundancy,
                )
            }
            &&& ctl.pending is Some && next.pending is None ==> next.shrink_acc == 0
        }),
{
}

/// Growing wins over shrinking: where both conditions have held long enough,
/// the agent grows.
pub proof fn law_growing_wins(
    cfg: K2ShardingConfig,
    id: Seq<u8>,
    ctl: AgentControl,
    cur_arc: DhtArc,
    cov: Seq<u32>,
    live: Seq<(Seq<u8>, ShrinkIntent)>,
    visible: int,
    tick: Tick,
)
    requires
        ctl.wf(),
        decide::turn_fits(cfg, id, ctl, cur_arc, cov, live, visible, tick),
        decide::decides_afresh(ctl, cur_arc),
        visible >= cfg.clamp_min_peers,
        ({
            let synced = AgentControl { declared_level: ctl.target_level, ..ctl };
            &&& decide::wants_to_grow(cov, live, id, synced, cfg.target_redundancy)
            &&& ctl.grow_acc + tick.elapsed >= tick.grow_need
        }),
    ensures
        ({
            let step = decide::tick_step(cfg, id, ctl, cur_arc, cov, live, visible, tick);
            &&& step.ctl.target_level == ctl.target_level + 1
            &&& step.ctl.pending is None
            &&& step.claim == Some(
                Claim::Target(blocks::block_arc_at(ctl.home as int, ctl.target_level + 1)),
            )
        }),
{
}

/// An agent lowers its level only in the second phase of an announced shrink,
/// when the wait is over, enough peers are visible and the re-check holds; and
/// then it gives up exactly what it announced.
pub proof fn law_sectors_are_dropped_only_after_the_handoff(
    cfg: K2ShardingConfig,
    id: Seq<u8>,
    ctl: AgentControl,
    cur_arc: DhtArc,
    cov: Seq<u32>,
    live: Seq<(Seq<u8>, ShrinkIntent)>,
    visible: int,
    tick: Tick,
)
    requires
        ctl.wf(),
        decide::tick_step(
            cfg,
            id,
            ctl,
            cur_arc,
            cov,
            live,
            visible,
            tick,
        ).ctl.declared_level < ctl.declared_level,
    ensures
        ctl.pending is Some,
        tick.now >= ctl.pending->0.execute_at,
        visible >= cfg.clamp_min_peers,
        decide::may_shrink(cov, live, id, ctl.pending->0.vacate, cfg.target_redundancy),
        decide::tick_step(
            cfg,
            id,
            ctl,
            cur_arc,
            cov,
            live,
            visible,
            tick,
        ).ctl.declared_level == ctl.declared_level - 1,
        forall|s: int|
            #![trigger blocks::in_range(ctl.pending->0.vacate, s)]
            blocks::in_range(ctl.pending->0.vacate, s) <==> blocks::in_sectors(
                blocks::block_at(ctl.home as int, ctl.declared_level as int),
                s,
            ) && !blocks::in_sectors(
                blocks::block_at(ctl.home as int, ctl.declared_level - 1),
                s,
            ),
{
    let home = ctl.home as int;
    let level = ctl.declared_level as int;
    blocks::law_growing_undoes_shrinking(home, level);
    blocks::law_vacate_is_at_most_half_the_ring(home, level);
    assert forall|s: int| #[trigger]
        blocks::in_range(ctl.pending->0.vacate, s) <==> blocks::in_sectors(
            blocks::block_at(home, level),
            s,
        ) && !blocks::in_sectors(blocks::block_at(home, level - 1), s) by {
        assert(blocks::in_range(ctl.pending->0.vacate, s) == blocks::in_sectors(
            blocks::vacate_at(home, level),
            s,
        ));
    }
}

/// What an agent declares gives a sector of its arc up only where that is safe.
/// With announcements by message this is the second phase of a shrink, and its
/// re-check holds; under the arc encoding it is the first phase, and more than
/// the target number of others hold the sector. Either way enough peers are
/// visible.
pub proof fn law_claims_give_up_only_what_is_spared(
    cfg: K2ShardingConfig,
    id: Seq<u8>,
    ctl: AgentControl,
    cur_arc: DhtArc,
    cov: Seq<u32>,
    live: Seq<(Seq<u8>, ShrinkIntent)>,
    visible: int,
    tick: Tick,
    arc: DhtArc,
    sector: int,
)
    requires
        ctl.wf(),
        0 <= sector < NUM_SECTORS,
        decide::tick_step(cfg, id, ctl, cur_arc, cov, live, visible, tick).claim == Some(
            Claim::Declare(arc),
        ),
        blocks::covers(cur_arc, sector),
        !blocks::covers(arc, sector),
        ctl.pending is Some ==> blocks::in_sectors(
            blocks::block_at(ctl.home as int, ctl.declared_level as int),
            sector,
        ),
    ensures
        visible >= cfg.clamp_min_peers,
        !cfg.agentinfo_encoding ==> {
            &&& ctl.pending is Some
            &&& tick.now >= ctl.pending->0.execute_at
            &&& blocks::in_range(ctl.pending->0.vacate, sector)
            &&& decide::may_shrink(cov, live, id, ctl.pending->0.vacate, cfg.target_redundancy)
            &&& cov[sector] >= cfg.target_redundancy
        },
        cfg.agentinfo_encoding ==> {
            &&& decide::decides_afresh(ctl, cur_arc)
            &&& cov[sector] > cfg.target_redundancy
        },
{
    let home = ctl.home as int;
    let level = ctl.target_level as int;
    let wide = blocks::block_at(home, level);
    blocks::law_block_is_aligned_around_home(home, level);
    blocks::law_arc_covers_exactly_its_sectors(wide.0, wide.1, sector);
    if level > 0 {
        let narrow = blocks::block_at(home, level - 1);
        blocks::law_block_is_aligned_around_home(home, level - 1);
        blocks::law_arc_covers_exactly_its_sectors(narrow.0, narrow.1, sector);
        blocks::law_growing_undoes_shrinking(home, level);
        blocks::law_vacate_is_at_most_half_the_ring(home, level);
        assert(blocks::in_sectors(blocks::vacate_at(home, level), sector)
            == (blocks::in_sectors(wide, sector) && !blocks::in_sectors(narrow, sector)));
    }
    if !cfg.agentinfo_encoding {
        assert(decide::copies_left(cov, live, id, true, sector) >= cfg.target_redundancy);
    }
}

/// One decision moves an agent by at most one level: the target up by one, or
/// both levels down by one.
pub proof fn law_levels_move_by_one(
    cfg: K2ShardingConfig,
    id: Seq<u8>,
    ctl: AgentControl,
    cur_arc: DhtArc,
    cov: Seq<u32>,
    live: Seq<(Seq<u8>, ShrinkIntent)>,
    visible: int,
    tick: Tick,
)
    requires
        ctl.wf(),
    ensures
        ({
            let next = decide::tick_step(cfg, id, ctl, cur_arc, cov, live, visible, tick).ctl;
            &&& next.home == ctl.home
            &&& ctl.target_level - 1 <= next.target_level <= ctl.target_level + 1
            &&& next.declared_level == ctl.declared_level || next.declared_level
                == ctl.target_level || next.declared_level == ctl.declared_level - 1
            &&& next.wf()
        }),
{
    if ctl.pending is None && ctl.target_level > 0 {
        blocks::law_vacate_is_at_most_half_the_ring(ctl.home as int, ctl.target_level as int);
    }
}

/// A shrink is announced only after its condition has held for long enough,
/// with growth not called for; it then waits at least the configured minimum,
/// and stays announced as long again after its time.
pub proof fn law_announcements_are_patient(
    cfg: K2ShardingConfig,
    id: Seq<u8>,
    ctl: AgentControl,
    cur_arc: DhtArc,
    cov: Seq<u32>,
    live: Seq<(Seq<u8>, ShrinkIntent)>,
    visible: int,
    tick: Tick,
)
    requires
        ctl.wf(),
        decide::turn_fits(cfg, id, ctl, cur_arc, cov, live, visible, tick),
        ctl.pending is None,
        decide::tick_step(
            cfg,
            id,
            ctl,
            cur_arc,
            cov,
            live,
            visible,
            tick,
        ).ctl.pending is Some,
    ensures
        ({
            let step = decide::tick_step(cfg, id, ctl, cur_arc, cov, live, visible, tick);
            let synced = AgentControl { declared_level: ctl.target_level, ..ctl };
            let execute_at = step.ctl.pending->0.execute_at;
            &&& decide::wants_to_shrink(cov, synced, cfg.target_redundancy)
            &&& ctl.shrink_acc + tick.elapsed >= tick.shrink_need
            &&& visible >= cfg.clamp_min_peers
            &&& (execute_at - tick.now) * 1000 >= config::millis(cfg.intent_min_wait_ms)
            &&& (execute_at - tick.now) * 1000 > tick.intent_wait - 1000
            &&& !cfg.agentinfo_encoding ==> (step.intent matches IntentChange::Announce(intent)
                && intent.expires_at - execute_at == execute_at - tick.now && intent.vacate
                == step.ctl.pending->0.vacate)
        }),
{
    assert(config::millis(cfg.intent_min_wait_ms) % 1000 == 0);
}

/// Peers learn exactly what was announced: where the message of an announcement
/// is noted before it expires, the receiver's table holds the announcer's
/// intent.
pub proof fn law_announcement_reaches_the_table(
    cfg: K2ShardingConfig,
    id: Seq<u8>,
    ctl: AgentControl,
    tick: Tick,
    received_at: i64,
)
    requires
        ctl.wf(),
        ctl.declared_level == ctl.target_level,
        ctl.declared_level > 0,
        !cfg.agentinfo_encoding,
        decide::clock_fits(cfg, tick),
        received_at < decide::announce_step(
            cfg,
            id,
            ctl,
            tick,
        ).intent->Announce_0.expires_at,
    ensures
        ({
            let step = decide::announce_step(cfg, id, ctl, tick);
            exists|msg: protocol::IntentMessageView|
                {
                    &&& step.broadcast == Some(#[trigger] protocol::message_bytes(Some(msg)))
                    &&& controller::announced(received_at, Some(msg)) == Some(
                        (id, step.intent->Announce_0),
                    )
                }
        }),
{
    let step = decide::announce_step(cfg, id, ctl, tick);
    let intent = step.intent->Announce_0;
    let arc = blocks::arc_of(intent.vacate.0 as int, intent.vacate.1 as int);
    let msg = protocol::IntentMessageView {
        agent_id: id,
        vacate_start: arc->0,
        vacate_end: arc->1,
        expires_at_us: intent.expires_at,
    };
    blocks::law_vacate_is_at_most_half_the_ring(ctl.home as int, ctl.declared_level as int);
    assert(step.broadcast == Some(protocol::message_bytes(Some(msg))));
}

/// Whatever a message claims, what is noted of it is a stretch of at most half
/// the ring that has not expired.
pub proof fn law_noted_intents_are_plausible(now: i64, msg: Option<protocol::IntentMessageView>)
    ensures
        controller::announced(now, msg) matches Some((id, intent)) ==> {
            &&& intents::on_ring(intent.vacate)
            &&& intent.vacate.1 - intent.vacate.0 <= NUM_SECTORS / 2
            &&& intent.expires_at > now
        },
{
}

/// An announcement does not touch the intents of other agents, and a later one
/// of the same agent replaces the earlier.
pub proof fn law_reannouncement_replaces(
    table: Map<Seq<u8>, ShrinkIntent>,
    now: i64,
    msg: protocol::IntentMessageView,
    other: Seq<u8>,
)
    ensures
        other != msg.agent_id ==> controller::noted(table, now, Some(msg)).contains_key(other)
            == table.contains_key(other) && controller::noted(table, now, Some(msg))[other]
            == table[other],
        controller::announced(now, Some(msg)) matches Some((id, intent)) ==> id == msg.agent_id
            && controller::noted(table, now, Some(msg)).contains_key(id) && controller::noted(
            table,
            now,
            Some(msg),
        )[id] == intent,
{
}

/// An intent over sectors that its announcer does not declare is not acted on,
/// unless the announcer is a local agent.
pub proof fn law_forged_intents_are_dropped(
    env: Surroundings,
    cfg: K2ShardingConfig,
    listing: Seq<(Seq<u8>, ShrinkIntent)>,
    unresponsive: Seq<bool>,
    i: int,
)
    requires
        env == controller::surroundings(
            cfg,
            listing,
            env.locals,
            env.peers,
            unresponsive,
            env.tick,
        ),
        0 <= i < env.live.len(),
    ensures
        env.live[i].1.expires_at > env.tick.now,
        snapshot::own_ids(env.locals).contains(env.live[i].0) || {
            let declared = snapshot::declared_arcs(env.peers);
            &&& declared.contains_key(env.live[i].0)
            &&& intents::arc_covers_range(declared[env.live[i].0], env.live[i].1.vacate)
        },
        listing.contains(env.live[i]),
{
    let fresh = intents::unexpired(env.tick.now);
    let good = intents::credible(
        snapshot::declared_arcs(env.peers),
        snapshot::own_ids(env.locals),
    );
    let some = listing.filter(fresh);
    some.lemma_filter_pred(good, i);
    assert(env.live.contains(env.live[i]));
    some.lemma_filter_contains_rev(good, env.live[i]);
    let j = choose|j: int| 0 <= j < some.len() && some[j] == env.live[i];
    listing.lemma_filter_pred(fresh, j);
    listing.lemma_filter_contains_rev(fresh, env.live[i]);
}

/// An intent that has not expired is acted on where its announcer is a local
/// agent or declares the sectors.
pub proof fn law_credible_intents_are_kept(
    env: Surroundings,
    cfg: K2ShardingConfig,
    listing: Seq<(Seq<u8>, ShrinkIntent)>,
    unresponsive: Seq<bool>,
    entry: (Seq<u8>, ShrinkIntent),
)
    requires
        env == controller::surroundings(
            cfg,
            listing,
            env.locals,
            env.peers,
            unresponsive,
            env.tick,
        ),
        listing.contains(entry),
        entry.1.expires_at > env.tick.now,
        snapshot::own_ids(env.locals).contains(entry.0) || {
            let declared = snapshot::declared_arcs(env.peers);
            &&& declared.contains_key(entry.0)
            &&& intents::arc_covers_range(declared[entry.0], entry.1.vacate)
        },
    ensures
        env.live.contains(entry),
{
    let fresh = intents::unexpired(env.tick.now);
    let good = intents::credible(
        snapshot::declared_arcs(env.peers),
        snapshot::own_ids(env.locals),
    );
    let some = listing.filter(fresh);
    let i = choose|i: int| 0 <= i < listing.len() && listing[i] == entry;
    listing.lemma_filter_contains(fresh, i);
    let j = choose|j: int| 0 <= j < some.len() && some[j] == entry;
    some.lemma_filter_contains(good, j);
}

/// The storm brake leaves no shrink pending and no local intent announced.
pub proof fn law_brake_calls_everything_off(
    env: Surroundings,
    last_gone: Set<Seq<u8>>,
    pass: Pass,
    id: Seq<u8>,
)
    requires
        controller::newly_gone(env.gone, last_gone, snapshot::own_ids(env.locals)),
    ensures
        !controller::has_pending(controller::braked(env, last_gone, pass).states, id),
        controller::has_pending(pass.states, id) ==> !controller::braked(
            env,
            last_gone,
            pass,
        ).intents.contains_key(id),
{
    if pass.states.contains_key(id) {
        assert(pass.states.map_values(controller::calmed())[id] == controller::calmed()(
            pass.states[id],
        ));
    }
}

/// A peer that has left, or that can be addressed but does not respond, since
/// the last tick is a fresh departure.
pub proof fn law_departures_are_noticed(
    locals: Seq<snapshot::LocalView>,
    peers: Seq<PeerView>,
    unresponsive: Seq<bool>,
    last_gone: Set<Seq<u8>>,
    i: int,
)
    requires
        0 <= i < peers.len(),
        peers[i].is_tombstone || peers[i].has_url && unresponsive[i],
        !last_gone.contains(peers[i].agent),
        !snapshot::own_ids(locals).contains(peers[i].agent),
    ensures
        controller::newly_gone(
            snapshot::gone_ids(locals, peers, unresponsive),
            last_gone,
            snapshot::own_ids(locals),
        ),
{
    assert(snapshot::has_departed(peers[i], unresponsive[i]));
    assert(snapshot::gone_ids(locals, peers, unresponsive).contains(peers[i].agent));
}

/// Under the arc encoding the brake leaves every agent whose shrink it calls
/// off declaring the arc of its level, so that its later decisions are not
/// blocked.
pub proof fn law_brake_restores_arcs(
    env: Surroundings,
    last_gone: Set<Seq<u8>>,
    pass: Pass,
    i: int,
)
    requires
        controller::newly_gone(env.gone, last_gone, snapshot::own_ids(env.locals)),
        env.cfg.agentinfo_encoding,
        controller::states_wf(pass.states),
        0 <= i < env.locals.len(),
        pass.arcs.len() == env.locals.len(),
        controller::called_off(env.locals, pass.states, i),
    ensures
        ({
            let after = controller::braked(env, last_gone, pass);
            let ctl = after.states[env.locals[i].agent];
            &&& ctl.pending is None
            &&& after.arcs[i] == blocks::block_arc_at(ctl.home as int, ctl.target_level as int)
        }),
{
    let id = env.locals[i].agent;
    assert(pass.states.contains_key(id));
    assert(pass.states[id].wf());
    assert(pass.states.map_values(controller::calmed())[id] == controller::calmed()(
        pass.states[id],
    ));
}

/// A tick that finds nobody newly gone calls nothing off.
pub proof fn law_brake_is_for_departures(env: Surroundings, last_gone: Set<Seq<u8>>, pass: Pass)
    requires
        forall|id: Seq<u8>| #[trigger]
            env.gone.contains(id) ==> last_gone.contains(id) || snapshot::own_ids(
                env.locals,
            ).contains(id),
    ensures
        controller::braked(env, last_gone, pass) == pass,
{
}

/// What an agent sees around itself does not depend on its own arc.
pub proof fn law_agents_do_not_count_themselves(
    env: Surroundings,
    arcs: Seq<DhtArc>,
    i: int,
    arc: DhtArc,
)
    requires
        0 <= i < env.locals.len(),
        arcs.len() == env.locals.len(),
    ensures
        controller::seen_coverage(env, arcs.update(i, arc), env.locals[i].agent)
            == controller::seen_coverage(env, arcs, env.locals[i].agent),
{
    let id = env.locals[i].agent;
    let before = controller::held(env.locals, arcs);
    let after = controller::held(env.locals, arcs.update(i, arc));
    assert forall|s: int| counting::count(after, controller::held_by_other(id, s))
        == #[trigger] counting::count(before, controller::held_by_other(id, s)) by {
        let has = controller::held_by_other(id, s);
        assert(after =~= before.update(i, (id, arc)));
        counting::lemma_count_remove(before, has, i);
        counting::lemma_count_remove(after, has, i);
        assert(before.remove(i) =~= after.remove(i));
    }
    assert(controller::seen_coverage(env, arcs.update(i, arc), id) =~= controller::seen_coverage(
        env,
        arcs,
        id,
    ));
}

/// Tombstoned peers and excluded agents add nothing to the coverage.
pub proof fn law_departed_peers_are_not_counted(
    peers: Seq<PeerView>,
    exclude: Set<Seq<u8>>,
    peer: PeerView,
    sector: int,
)
    requires
        peer.is_tombstone || exclude.contains(peer.agent),
    ensures
        coverage::copies(peers.push(peer), exclude, sector) == coverage::copies(
            peers,
            exclude,
            sector,
        ),
{
    counting::lemma_count_push(peers, coverage::declares(exclude, sector), peer);
}

/// Coverage does not depend on the order in which the peers are listed.
pub proof fn law_order_of_peers_is_irrelevant(
    peers: Seq<PeerView>,
    other: Seq<PeerView>,
    exclude: Set<Seq<u8>>,
    sector: int,
)
    requires
        peers.to_multiset() == other.to_multiset(),
    ensures
        coverage::copies(peers, exclude, sector) == coverage::copies(other, exclude, sector),
{
    counting::lemma_count_permuted(peers, other, coverage::declares(exclude, sector));
}

/// The measured staleness lies between the configured bounds.
pub proof fn law_lag_is_bounded(cfg: K2ShardingConfig, list: Seq<u128>)
    requires
        cfg.lag_floor_ms <= cfg.lag_ceiling_ms,
    ensures
        config::millis(cfg.lag_floor_ms) <= snapshot::lag(cfg, list) <= config::millis(
            cfg.lag_ceiling_ms,
        ),
{
}

/// The staleness does not depend on the order in which the peers are listed.
pub proof fn law_lag_ignores_order(cfg: K2ShardingConfig, list: Seq<u128>, other: Seq<u128>)
    requires
        list.to_multiset() == other.to_multiset(),
    ensures
        snapshot::lag(cfg, list) == snapshot::lag(cfg, other),
{
    let leq = snapshot::shorter_first();
    assert(vstd::relations::total_ordering(leq));
    list.lemma_sort_by_ensures(leq);
    other.lemma_sort_by_ensures(leq);
    vstd::seq_lib::lemma_sorted_unique(list.sort_by(leq), other.sort_by(leq), leq);
    list.to_multiset_ensures();
    other.to_multiset_ensures();
}

/// Dropping expired intents now and again later is the same as dropping them
/// later.
pub proof fn law_expiry_is_final(
    table: Map<Seq<u8>, ShrinkIntent>,
    now: i64,
    later: i64,
)
    requires
        now <= later,
    ensures
        intents::without_expired(intents::without_expired(table, now), later)
            == intents::without_expired(table, later),
{
    assert(intents::without_expired(intents::without_expired(table, now), later)
        =~= intents::without_expired(table, later));
}

/// An agent's turn leaves the states and intents of all other agents alone.
pub proof fn law_turns_concern_one_agent(env: Surroundings, pass: Pass, i: int, other: Seq<u8>)
    requires
        other != env.locals[i].agent,
    ensures
        ({
            let next = controller::visited(env, pass, i);
            &&& next.states.contains_key(other) == pass.states.contains_key(other)
            &&& next.states[other] == pass.states[other]
            &&& next.intents.contains_key(other) == pass.intents.contains_key(other)
            &&& next.intents[other] == pass.intents[other]
        }),
{
}

/// Where an agent drops sectors in its turn, each of them keeps the target
/// number of holders among the responsive peers and the sibling agents.
pub proof fn law_dropped_sectors_keep_the_target(
    env: Surroundings,
    pass: Pass,
    i: int,
    sector: int,
)
    requires
        controller::states_wf(pass.states),
        pass.states.contains_key(env.locals[i].agent),
        controller::visited(env, pass, i).states[env.locals[i].agent].declared_level
            < pass.states[env.locals[i].agent].declared_level,
        ({
            let ctl = pass.states[env.locals[i].agent];
            let home = ctl.home as int;
            &&& blocks::in_sectors(blocks::block_at(home, ctl.declared_level as int), sector)
            &&& !blocks::in_sectors(blocks::block_at(home, ctl.declared_level - 1), sector)
        }),
    ensures
        controller::seen_coverage(env, pass.arcs, env.locals[i].agent)[sector]
            >= env.cfg.target_redundancy,
{
    let id = env.locals[i].agent;
    let ctl = pass.states[id];
    let cov = controller::seen_coverage(env, pass.arcs, id);
    law_sectors_are_dropped_only_after_the_handoff(
        env.cfg,
        id,
        ctl,
        pass.arcs[i],
        cov,
        env.live,
        controller::visible(env),
        env.tick,
    );
    assert(blocks::in_range(ctl.pending->0.vacate, sector));
    assert(decide::copies_left(cov, env.live, id, true, sector) >= env.cfg.target_redundancy);
}

/// After a tick every local agent has a state, and no other agent has.
pub proof fn law_local_agents_are_tracked(env: Surroundings, pass: Pass, id: Seq<u8>)
    ensures
        controller::passed(env, pass, env.locals.len()).states.restrict(
            snapshot::own_ids(env.locals),
        ).contains_key(id) <==> snapshot::own_ids(env.locals).contains(id),
{
    if snapshot::own_ids(env.locals).contains(id) {
        let i = choose|i: int| 0 <= i < env.locals.len() && (#[trigger] env.locals[i]).agent == id;
        lemma_tracked(env, pass, env.locals.len(), i);
    }
}

proof fn lemma_tracked(env: Surroundings, pass: Pass, n: nat, i: int)
    requires
        0 <= i < n,
    ensures
        controller::passed(env, pass, n).states.contains_key(env.locals[i].agent),
    decreases n,
{
    if i < n - 1 {
        lemma_tracked(env, pass, (n - 1) as nat, i);
    }
}

/// Under the arc encoding a tick sends no messages.
pub proof fn law_arc_encoding_sends_nothing(
    env: Surroundings,
    last_gone: Set<Seq<u8>>,
    states: Map<Seq<u8>, AgentControl>,
    table: Map<Seq<u8>, ShrinkIntent>,
    k: int,
)
    requires
        env.cfg.agentinfo_encoding,
        0 <= k < controller::ticked(states, table, last_gone, env).effects.len(),
    ensures
        !(controller::ticked(states, table, last_gone, env).effects[k] is Send),
{
    let start = controller::braked(env, last_gone, controller::first_pass(states, table, env));
    lemma_widening_tells(env.locals, states, env.locals.len());
    lemma_no_sends(env, start, env.locals.len());
}

proof fn lemma_widening_tells(
    locals: Seq<snapshot::LocalView>,
    states: Map<Seq<u8>, AgentControl>,
    n: nat,
)
    ensures
        forall|k: int|
            0 <= k < controller::widening(locals, states, n).len() ==> !(#[trigger]
            controller::widening(locals, states, n)[k] is Send),
    decreases n,
{
    if n > 0 {
        lemma_widening_tells(locals, states, (n - 1) as nat);
    }
}

proof fn lemma_no_sends(env: Surroundings, start: Pass, n: nat)
    requires
        env.cfg.agentinfo_encoding,
        forall|k: int| 0 <= k < start.effects.len() ==> !(#[trigger] start.effects[k] is Send),
    ensures
        forall|k: int|
            0 <= k < controller::passed(env, start, n).effects.len() ==> !(#[trigger]
            controller::passed(env, start, n).effects[k] is Send),
    decreases n,
{
    if n > 0 {
        lemma_no_sends(env, start, (n - 1) as nat);
        let before = controller::passed(env, start, (n - 1) as nat);
        let step = controller::agent_step(env, before, n - 1);
        assert(step.broadcast is None);
    }
}

/// What is noted of a message. An announcement that has not expired, runs
/// upwards and touches no more than half of the sectors is noted for its agent,
/// with the sectors that it touches and its expiry. Anything else leaves the
/// table as it is.
pub proof fn law_what_is_noted(
    table: Map<Seq<u8>, ShrinkIntent>,
    now: i64,
    msg: Option<protocol::IntentMessageView>,
)
    ensures
        ({
            let next = controller::noted(table, now, msg);
            let m = msg->0;
            let good = msg is Some && m.expires_at_us > now && m.vacate_start <= m.vacate_end
                && m.vacate_end / 0x80_0000 - m.vacate_start / 0x80_0000 < 256;
            &&& good ==> next == table.insert(
                m.agent_id,
                ShrinkIntent {
                    vacate: (
                        (m.vacate_start / 0x80_0000) as u32,
                        (m.vacate_end / 0x80_0000 + 1) as u32,
                    ),
                    expires_at: m.expires_at_us,
                },
            )
            &&& !good ==> next == table
        }),
{
}

/// An intent is void from its expiry on, and the table keeps those and only
/// those that are not.
pub proof fn law_void_intents_are_dropped(
    table: Map<Seq<u8>, ShrinkIntent>,
    entry: (Seq<u8>, ShrinkIntent),
    now: i64,
)
    ensures
        intents::without_expired(table, now).contains_key(entry.0) <==> table.contains_key(entry.0)
            && table[entry.0].expires_at > now,
        intents::without_expired(table, now).contains_key(entry.0) ==> intents::without_expired(
            table,
            now,
        )[entry.0] == table[entry.0],
        intents::unexpired(now)(entry) <==> entry.1.expires_at > now,
{
}

} // verus!
