//! What the handoff guarantees of a whole network over any number of ticks.

use crate::blocks;
use crate::blocks::NUM_SECTORS;
use crate::config::K2ShardingConfig;
use crate::controller;
use crate::controller::{EffectView, Pass, Surroundings};
use crate::counting;
use crate::coverage;
use crate::coverage::PeerView;
use crate::decide;
use crate::decide::{AgentControl, Claim, Tick};
use crate::dht_arc;
use crate::dht_arc::DhtArc;
use crate::handoff;
use crate::ids;
use crate::intents::ShrinkIntent;
use crate::rules;
use crate::snapshot;
use crate::snapshot::LocalView;
use vstd::prelude::*;

verus! {

/// An agent of the network: the arc that it declares, and its state where the
/// controller of its node has met it.
pub struct Member {
    pub arc: DhtArc,
    pub ctl: Option<AgentControl>,
}

/// One tick of one node, as [`controller::ticked`] takes it.
pub struct NodeTick {
    pub states: Map<Seq<u8>, AgentControl>,
    pub table: Map<Seq<u8>, ShrinkIntent>,
    pub last_gone: Set<Seq<u8>>,
    pub env: Surroundings,
}

impl NodeTick {
    /// Where the turns of its agents start.
    pub open spec fn start(self) -> Pass {
        controller::opening(self.states, self.table, self.last_gone, self.env)
    }

    /// Where the tick ends.
    pub open spec fn end(self) -> Pass {
        controller::ticked(self.states, self.table, self.last_gone, self.env)
    }
}

/// No two agents of a snapshot share an id.
pub open spec fn distinct_ids(locals: Seq<LocalView>) -> bool {
    forall|i: int, j: int|
        0 <= i < j < locals.len() ==> (#[trigger] locals[i]).agent != (#[trigger] locals[j]).agent
}

/// The state in which an agent has its turn.
pub open spec fn met(env: Surroundings, start: Pass, i: int) -> AgentControl {
    if start.states.contains_key(env.locals[i].agent) {
        start.states[env.locals[i].agent]
    } else {
        controller::newcomer(env.locals[i].loc)
    }
}

/// The arc that an agent declares after a claim.
pub open spec fn declared_after(claim: Option<Claim>, arc: DhtArc) -> DhtArc {
    match claim {
        Some(Claim::Declare(next)) => next,
        _ => arc,
    }
}

pub proof fn lemma_arcs_len(env: Surroundings, start: Pass, n: nat)
    requires
        n <= start.arcs.len(),
    ensures
        controller::passed(env, start, n).arcs.len() == start.arcs.len(),
    decreases n,
{
    if n > 0 {
        lemma_arcs_len(env, start, (n - 1) as nat);
    }
}

/// Before its turn an agent is as the tick found it.
pub proof fn lemma_before_turn(env: Surroundings, start: Pass, n: nat, i: int)
    requires
        distinct_ids(env.locals),
        start.arcs.len() == env.locals.len(),
        n <= i < env.locals.len(),
    ensures
        ({
            let pass = controller::passed(env, start, n);
            let id = env.locals[i].agent;
            &&& pass.arcs.len() == start.arcs.len()
            &&& pass.arcs[i] == start.arcs[i]
            &&& pass.states.contains_key(id) == start.states.contains_key(id)
            &&& start.states.contains_key(id) ==> pass.states[id] == start.states[id]
        }),
    decreases n,
{
    if n > 0 {
        lemma_before_turn(env, start, (n - 1) as nat, i);
        assert(env.locals[n - 1].agent != env.locals[i].agent);
    }
}

/// What an agent's turn makes of it is what the tick makes of it.
pub proof fn lemma_turn(env: Surroundings, start: Pass, n: nat, i: int)
    requires
        distinct_ids(env.locals),
        start.arcs.len() == env.locals.len(),
        0 <= i < n <= env.locals.len(),
    ensures
        ({
            let pass = controller::passed(env, start, i as nat);
            let step = controller::agent_step(env, pass, i);
            let after = controller::passed(env, start, n);
            let id = env.locals[i].agent;
            &&& step == decide::tick_step(
                env.cfg,
                id,
                met(env, start, i),
                start.arcs[i],
                controller::seen_coverage(env, pass.arcs, id),
                env.live,
                controller::visible(env),
                env.tick,
            )
            &&& after.arcs.len() == start.arcs.len()
            &&& after.arcs[i] == declared_after(step.claim, start.arcs[i])
            &&& after.states.contains_key(id)
            &&& after.states[id] == step.ctl
        }),
    decreases n,
{
    lemma_before_turn(env, start, i as nat, i);
    if i < n - 1 {
        lemma_turn(env, start, (n - 1) as nat, i);
        lemma_arcs_len(env, start, (n - 1) as nat);
        assert(env.locals[i].agent != env.locals[n - 1].agent);
    }
}

/// The arcs that agents declare once the effects of a tick are carried out.
pub open spec fn carried_out(arcs: Seq<DhtArc>, effects: Seq<EffectView>) -> Seq<DhtArc>
    decreases effects.len(),
{
    if effects.len() == 0 {
        arcs
    } else {
        let before = carried_out(arcs, effects.drop_last());
        match effects.last() {
            EffectView::Tell(i, Claim::Declare(arc)) => before.update(i, arc),
            _ => before,
        }
    }
}

proof fn lemma_carried_out_push(arcs: Seq<DhtArc>, effects: Seq<EffectView>, effect: EffectView)
    ensures
        carried_out(arcs, effects.push(effect)) == match effect {
            EffectView::Tell(i, Claim::Declare(arc)) => carried_out(arcs, effects).update(i, arc),
            _ => carried_out(arcs, effects),
        },
{
    assert(effects.push(effect).drop_last() =~= effects);
}

proof fn lemma_widening_carried_out(
    locals: Seq<LocalView>,
    states: Map<Seq<u8>, AgentControl>,
    arcs: Seq<DhtArc>,
    n: nat,
)
    requires
        arcs.len() == locals.len(),
        n <= locals.len(),
    ensures
        ({
            let after = carried_out(arcs, controller::widening(locals, states, n));
            &&& after.len() == arcs.len()
            &&& forall|i: int|
                0 <= i < arcs.len() ==> #[trigger] after[i] == if i < n {
                    controller::widened_arcs(locals, states, arcs)[i]
                } else {
                    arcs[i]
                }
        }),
    decreases n,
{
    if n > 0 {
        lemma_widening_carried_out(locals, states, arcs, (n - 1) as nat);
        lemma_carried_out_push(
            arcs,
            controller::widening(locals, states, (n - 1) as nat),
            EffectView::Tell(
                n - 1,
                Claim::Declare(controller::wide_arc(states[locals[n - 1].agent])),
            ),
        );
    }
}

proof fn lemma_turns_carried_out(env: Surroundings, start: Pass, arcs: Seq<DhtArc>, n: nat)
    requires
        carried_out(arcs, start.effects) == start.arcs,
    ensures
        carried_out(arcs, controller::passed(env, start, n).effects) == controller::passed(
            env,
            start,
            n,
        ).arcs,
    decreases n,
{
    if n > 0 {
        let i = n - 1;
        lemma_turns_carried_out(env, start, arcs, i as nat);
        let pass = controller::passed(env, start, i as nat);
        let known = controller::enrolled(env, pass, i);
        let step = controller::agent_step(env, pass, i);
        lemma_carried_out_push(
            arcs,
            pass.effects,
            EffectView::Tell(i, Claim::Target(dht_arc::full_arc())),
        );
        let told = match step.claim {
            Some(claim) => known.effects.push(EffectView::Tell(i, claim)),
            None => known.effects,
        };
        if let Some(claim) = step.claim {
            lemma_carried_out_push(arcs, known.effects, EffectView::Tell(i, claim));
        }
        if let Some(bytes) = step.broadcast {
            lemma_carried_out_push(arcs, told, EffectView::Send(bytes));
        }
        assert(known.effects + controller::step_effects(i, step) =~= match step.broadcast {
            Some(bytes) => told.push(EffectView::Send(bytes)),
            None => told,
        });
    }
}

/// The effects of a tick say it all: where they are carried out in order, the
/// agents declare the arcs with which the tick ends.
pub proof fn law_effects_declare_the_arcs(t: NodeTick)
    ensures
        carried_out(controller::cur_arcs(t.env.locals), t.end().effects) == t.end().arcs,
{
    let env = t.env;
    let arcs = controller::cur_arcs(env.locals);
    let first = controller::first_pass(t.states, t.table, env);
    lemma_widening_carried_out(env.locals, t.states, arcs, env.locals.len());
    assert(first.effects + controller::widening(env.locals, t.states, env.locals.len())
        =~= controller::widening(env.locals, t.states, env.locals.len()));
    assert(carried_out(arcs, t.start().effects) =~= t.start().arcs);
    lemma_turns_carried_out(env, t.start(), arcs, env.locals.len());
}

/// The sectors of an arc lie in a range.
pub open spec fn within(arc: DhtArc, range: (int, int)) -> bool {
    forall|s: int|
        0 <= s < NUM_SECTORS && #[trigger] blocks::covers(arc, s) ==> blocks::in_sectors(range, s)
}

/// An agent whose shrink is pending declares no more than the block of its
/// level.
pub open spec fn sound_member(arc: DhtArc, ctl: AgentControl) -> bool {
    &&& ctl.wf()
    &&& ctl.pending is Some ==> within(
        arc,
        blocks::block_at(ctl.home as int, ctl.declared_level as int),
    )
}

/// The arc of a block covers the sectors of the block.
proof fn lemma_block_arc(home: int, level: int)
    requires
        0 <= home < NUM_SECTORS,
        0 <= level <= blocks::MAX_LEVEL,
    ensures
        forall|s: int|
            #![trigger blocks::covers(blocks::block_arc_at(home, level), s)]
            0 <= s < NUM_SECTORS ==> (blocks::covers(blocks::block_arc_at(home, level), s)
                <==> blocks::in_sectors(blocks::block_at(home, level), s)),
{
    blocks::law_block_is_aligned_around_home(home, level);
    let range = blocks::block_at(home, level);
    assert forall|s: int|
        #![trigger blocks::covers(blocks::block_arc_at(home, level), s)]
        0 <= s < NUM_SECTORS implies (blocks::covers(blocks::block_arc_at(home, level), s)
        <==> blocks::in_sectors(range, s)) by {
        blocks::law_arc_covers_exactly_its_sectors(range.0, range.1, s);
    }
}

/// A decision leaves an agent sound.
proof fn lemma_step_sound(
    cfg: K2ShardingConfig,
    id: Seq<u8>,
    ctl: AgentControl,
    arc: DhtArc,
    cov: Seq<u32>,
    live: Seq<(Seq<u8>, ShrinkIntent)>,
    visible: int,
    tick: Tick,
)
    requires
        sound_member(arc, ctl),
    ensures
        ({
            let step = decide::tick_step(cfg, id, ctl, arc, cov, live, visible, tick);
            sound_member(declared_after(step.claim, arc), step.ctl)
        }),
{
    let step = decide::tick_step(cfg, id, ctl, arc, cov, live, visible, tick);
    rules::law_levels_move_by_one(cfg, id, ctl, arc, cov, live, visible, tick);
    let home = ctl.home as int;
    let level = ctl.target_level as int;
    lemma_block_arc(home, level);
    if ctl.pending is None && step.ctl.pending is Some {
        lemma_block_arc(home, level - 1);
        blocks::law_growing_undoes_shrinking(home, level);
        blocks::law_sibling_completes_parent(home, level - 1);
    }
}

/// The brake only widens arcs, and leaves agents sound.
proof fn lemma_brake(t: NodeTick, i: int)
    requires
        0 <= i < t.env.locals.len(),
        t.states.contains_key(t.env.locals[i].agent) ==> sound_member(
            t.env.locals[i].cur_arc,
            t.states[t.env.locals[i].agent],
        ),
    ensures
        t.start().arcs.len() == t.env.locals.len(),
        forall|s: int|
            0 <= s < NUM_SECTORS && #[trigger] blocks::covers(t.env.locals[i].cur_arc, s)
                ==> blocks::covers(t.start().arcs[i], s),
        sound_member(t.start().arcs[i], met(t.env, t.start(), i)),
{
    let first = controller::first_pass(t.states, t.table, t.env);
    let id = t.env.locals[i].agent;
    if t.states.contains_key(id) {
        let ctl = t.states[id];
        lemma_block_arc(ctl.home as int, ctl.declared_level as int);
        assert(t.states.map_values(controller::calmed())[id] == controller::calmed()(ctl));
    }
}

/// Whether the agent at a place gives a sector up in its turn of a tick.
pub open spec fn gives_up(t: NodeTick, i: int, sector: int) -> bool {
    &&& blocks::covers(t.start().arcs[i], sector)
    &&& !blocks::covers(t.end().arcs[i], sector)
}

/// Whether an agent has the turn at a place of a tick in a round of ticks.
pub open spec fn is_turn(round: Seq<NodeTick>, k: int, i: int, id: Seq<u8>) -> bool {
    &&& 0 <= k < round.len()
    &&& 0 <= i < round[k].env.locals.len()
    &&& round[k].env.locals[i].agent == id
}

/// Whether an agent has a turn in a round.
pub open spec fn takes_part(round: Seq<NodeTick>, id: Seq<u8>) -> bool {
    exists|k: int, i: int| #[trigger] is_turn(round, k, i, id)
}

/// Whether an agent gives a sector up in a round.
pub open spec fn leaves(round: Seq<NodeTick>, id: Seq<u8>, sector: int) -> bool {
    exists|k: int, i: int| #[trigger] is_turn(round, k, i, id) && gives_up(round[k], i, sector)
}

/// The agents that give a sector up in a round.
pub open spec fn leavers(
    net: Map<Seq<u8>, Member>,
    round: Seq<NodeTick>,
    sector: int,
) -> Set<Seq<u8>> {
    Set::new(|id: Seq<u8>| net.contains_key(id) && leaves(round, id, sector))
}

/// The agents of other nodes that declare a sector.
pub open spec fn remote_holders(
    net: Map<Seq<u8>, Member>,
    locals: Seq<LocalView>,
    sector: int,
) -> Set<Seq<u8>> {
    Set::new(
        |id: Seq<u8>|
            {
                &&& net.contains_key(id)
                &&& !snapshot::is_own(locals, id)
                &&& blocks::covers(net[id].arc, sector)
            },
    )
}

/// A sector is declared by some agent.
pub open spec fn is_held(net: Map<Seq<u8>, Member>, sector: int) -> bool {
    exists|id: Seq<u8>| net.contains_key(id) && #[trigger] blocks::covers(net[id].arc, sector)
}

/// Every sector is declared by some agent.
pub open spec fn all_held(net: Map<Seq<u8>, Member>) -> bool {
    forall|s: int| 0 <= s < NUM_SECTORS ==> #[trigger] is_held(net, s)
}

/// The network is finite, and its agents are sound.
pub open spec fn sound(net: Map<Seq<u8>, Member>) -> bool {
    &&& net.dom().finite()
    &&& forall|id: Seq<u8>| #[trigger]
        net.contains_key(id) ==> (net[id].ctl matches Some(ctl) ==> sound_member(net[id].arc, ctl))
}

/// A tick of a node of the network: it is about agents of the network as they
/// are, wants at least one copy of everything, and counts no more agents of
/// other nodes on a sector than declare it.
pub open spec fn ticks_in(net: Map<Seq<u8>, Member>, t: NodeTick) -> bool {
    let env = t.env;
    &&& distinct_ids(env.locals)
    &&& env.peers.len() + env.locals.len() <= u32::MAX
    &&& env.cfg.target_redundancy >= 1
    &&& forall|i: int|
        0 <= i < env.locals.len() ==> {
            let id = (#[trigger] env.locals[i]).agent;
            &&& net.contains_key(id)
            &&& net[id].arc == env.locals[i].cur_arc
            &&& net[id].ctl == if t.states.contains_key(id) {
                Some(t.states[id])
            } else {
                None
            }
        }
    &&& forall|s: int|
        0 <= s < NUM_SECTORS ==> #[trigger] coverage::copies(env.peers, env.gone, s)
            <= remote_holders(net, env.locals, s).len()
}

/// A peer store that is up to date: each entry of a live agent of another node
/// gives the arc that the agent declares, and no agent has two.
pub open spec fn up_to_date(net: Map<Seq<u8>, Member>, env: Surroundings) -> bool {
    &&& forall|i: int, j: int|
        0 <= i < j < env.peers.len() ==> (#[trigger] env.peers[i]).agent != (
        #[trigger] env.peers[j]).agent
    &&& forall|i: int|
        0 <= i < env.peers.len() && !(#[trigger] env.peers[i]).is_tombstone && !env.gone.contains(
            env.peers[i].agent,
        ) ==> net.contains_key(env.peers[i].agent) && net[env.peers[i].agent].arc
            == env.peers[i].storage_arc
}

proof fn lemma_count_entries(peers: Seq<PeerView>, has: spec_fn(PeerView) -> bool)
    ensures
        counting::count(
            Seq::new(peers.len(), |i: int| (peers[i].agent, peers[i])),
            |entry: (Seq<u8>, PeerView)| has(entry.1),
        ) == counting::count(peers, has),
    decreases peers.len(),
{
    let entries = Seq::new(peers.len(), |i: int| (peers[i].agent, peers[i]));
    if peers.len() > 0 {
        let shorter = peers.drop_last();
        lemma_count_entries(shorter, has);
        assert(entries.drop_last() =~= Seq::new(
            shorter.len(),
            |i: int| (shorter[i].agent, shorter[i]),
        ));
    }
}

/// A node whose peer store is up to date, and that does not count its own
/// agents among its peers, counts no more agents of other nodes on a sector than
/// declare it.
pub proof fn law_fresh_views_do_not_overcount(
    net: Map<Seq<u8>, Member>,
    env: Surroundings,
    sector: int,
)
    requires
        net.dom().finite(),
        up_to_date(net, env),
        forall|id: Seq<u8>| #[trigger]
            snapshot::is_own(env.locals, id) ==> env.gone.contains(id),
    ensures
        coverage::copies(env.peers, env.gone, sector) <= remote_holders(
            net,
            env.locals,
            sector,
        ).len(),
{
    let peers = env.peers;
    let has = coverage::declares(env.gone, sector);
    let entries = Seq::new(peers.len(), |i: int| (peers[i].agent, peers[i]));
    let of_entry = |entry: (Seq<u8>, PeerView)| has(entry.1);
    let remote = remote_holders(net, env.locals, sector);
    assert(remote.subset_of(net.dom()));
    vstd::set_lib::lemma_set_subset_finite(net.dom(), remote);
    lemma_count_entries(peers, has);
    assert forall|i: int, j: int| 0 <= i < j < entries.len() implies (#[trigger] entries[i]).0 != (
    #[trigger] entries[j]).0 by {
        assert(peers[i].agent != peers[j].agent);
    }
    assert forall|i: int| 0 <= i < entries.len() && of_entry(#[trigger] entries[i]) implies
        remote.contains(entries[i].0) by {
        assert(has(peers[i]));
    }
    counting::lemma_count_at_most_keys(entries, of_entry, remote);
}

/// An arc grows by synchronisation: it loses nothing, and reaches no further
/// than the block that its agent aims at.
pub open spec fn grown(ctl: Option<AgentControl>, before: DhtArc, after: DhtArc) -> bool {
    forall|s: int|
        #![trigger blocks::covers(after, s)]
        #![trigger blocks::covers(before, s)]
        0 <= s < NUM_SECTORS ==> {
            &&& blocks::covers(before, s) ==> blocks::covers(after, s)
            &&& blocks::covers(after, s) && !blocks::covers(before, s) ==> (ctl matches Some(ctl)
                ==> blocks::in_sectors(
                blocks::block_at(ctl.home as int, ctl.target_level as int),
                s,
            ))
        }
}

/// One round: some nodes tick, none knowing what the others do in it, and arcs
/// grow meanwhile. No agent joins or leaves.
pub open spec fn moves(
    net: Map<Seq<u8>, Member>,
    round: Seq<NodeTick>,
    next: Map<Seq<u8>, Member>,
) -> bool {
    &&& next.dom() == net.dom()
    &&& forall|k: int| 0 <= k < round.len() ==> ticks_in(net, #[trigger] round[k])
    &&& forall|k: int, i: int, id: Seq<u8>| #[trigger]
        is_turn(round, k, i, id) ==> {
            &&& next[id].ctl == Some(round[k].end().states[id])
            &&& grown(next[id].ctl, round[k].end().arcs[i], next[id].arc)
        }
    &&& forall|id: Seq<u8>|
        net.contains_key(id) && !takes_part(round, id) ==> (#[trigger] next[id]).ctl == net[id].ctl
            && grown(net[id].ctl, net[id].arc, next[id].arc)
}

/// What agents know of each other where several nodes tick in one round. With
/// announcements by message, an agent that gives a sector up has those of the
/// agents that outrank it and give the same sector up. Under the arc encoding,
/// where agents narrow their arcs at once, no more of them than one above the
/// target give the same sector up. Of a round in which one node ticks nothing is
/// asked.
pub open spec fn considerate(net: Map<Seq<u8>, Member>, round: Seq<NodeTick>) -> bool {
    round.len() > 1 ==> forall|k: int, i: int, id: Seq<u8>, s: int|
        #![trigger is_turn(round, k, i, id), gives_up(round[k], i, s)]
        is_turn(round, k, i, id) && 0 <= s < NUM_SECTORS && gives_up(round[k], i, s) ==> {
            let env = round[k].env;
            &&& !env.cfg.agentinfo_encoding ==> forall|first: Seq<u8>| #[trigger]
                leaves(round, first, s) && ids::lex_lt(first, id) ==> handoff::announces(
                    env.live,
                    first,
                    s,
                )
            &&& env.cfg.agentinfo_encoding ==> leavers(net, round, s).len()
                <= env.cfg.target_redundancy + 1
        }
}

/// The agents that declare a sector at some point of a round, be it when the
/// turns start or when they end.
spec fn touching(
    net: Map<Seq<u8>, Member>,
    round: Seq<NodeTick>,
    sector: int,
) -> Set<Seq<u8>> {
    Set::new(
        |id: Seq<u8>|
            {
                &&& net.contains_key(id)
                &&& if takes_part(round, id) {
                    exists|k: int, i: int| #[trigger]
                        is_turn(round, k, i, id) && (blocks::covers(
                            round[k].start().arcs[i],
                            sector,
                        ) || blocks::covers(round[k].end().arcs[i], sector))
                } else {
                    blocks::covers(net[id].arc, sector)
                }
            },
    )
}

/// The place of a turn in which an agent gives a sector up.
spec fn leaving_turn(round: Seq<NodeTick>, id: Seq<u8>, sector: int) -> (int, int) {
    choose|k: int, i: int| #[trigger] is_turn(round, k, i, id) && gives_up(round[k], i, sector)
}

/// What the agent at a place of a tick sees in its turn.
spec fn sight(t: NodeTick, i: int) -> Seq<u32> {
    controller::seen_coverage(
        t.env,
        controller::passed(t.env, t.start(), i as nat).arcs,
        t.env.locals[i].agent,
    )
}

/// An agent of a tick is sound when its turn starts and when the tick ends.
proof fn lemma_tick_sound(net: Map<Seq<u8>, Member>, t: NodeTick, i: int)
    requires
        sound(net),
        ticks_in(net, t),
        0 <= i < t.env.locals.len(),
    ensures
        t.start().arcs.len() == t.env.locals.len(),
        sound_member(t.start().arcs[i], met(t.env, t.start(), i)),
        sound_member(t.end().arcs[i], t.end().states[t.env.locals[i].agent]),
        forall|s: int|
            0 <= s < NUM_SECTORS && #[trigger] blocks::covers(t.env.locals[i].cur_arc, s)
                ==> blocks::covers(t.start().arcs[i], s),
{
    let env = t.env;
    let id = env.locals[i].agent;
    assert(net.contains_key(id));
    lemma_brake(t, i);
    lemma_turn(env, t.start(), env.locals.len(), i);
    lemma_step_sound(
        env.cfg,
        id,
        met(env, t.start(), i),
        t.start().arcs[i],
        sight(t, i),
        env.live,
        controller::visible(env),
        env.tick,
    );
}

/// An agent that gives a sector up could be spared.
proof fn lemma_giving_up(net: Map<Seq<u8>, Member>, t: NodeTick, i: int, sector: int)
    requires
        sound(net),
        ticks_in(net, t),
        0 <= i < t.env.locals.len(),
        0 <= sector < NUM_SECTORS,
        gives_up(t, i, sector),
    ensures
        ({
            let ctl = met(t.env, t.start(), i);
            let target = t.env.cfg.target_redundancy;
            &&& !t.env.cfg.agentinfo_encoding ==> {
                &&& blocks::in_range(ctl.pending->0.vacate, sector)
                &&& decide::may_shrink(
                    sight(t, i),
                    t.env.live,
                    t.env.locals[i].agent,
                    ctl.pending->0.vacate,
                    target,
                )
            }
            &&& t.env.cfg.agentinfo_encoding ==> sight(t, i)[sector] > target
        }),
{
    let env = t.env;
    let id = env.locals[i].agent;
    let ctl = met(env, t.start(), i);
    lemma_tick_sound(net, t, i);
    lemma_turn(env, t.start(), env.locals.len(), i);
    rules::law_claims_give_up_only_what_is_spared(
        env.cfg,
        id,
        ctl,
        t.start().arcs[i],
        sight(t, i),
        env.live,
        controller::visible(env),
        env.tick,
        t.end().arcs[i],
        sector,
    );
}

/// At its turn an agent finds each sibling either as the turns start or as they
/// end.
proof fn lemma_siblings(t: NodeTick, i: int, j: int)
    requires
        distinct_ids(t.env.locals),
        t.start().arcs.len() == t.env.locals.len(),
        0 <= i < t.env.locals.len(),
        0 <= j < t.env.locals.len(),
    ensures
        ({
            let arcs = controller::passed(t.env, t.start(), i as nat).arcs;
            arcs[j] == t.start().arcs[j] || arcs[j] == t.end().arcs[j]
        }),
{
    if j < i {
        lemma_turn(t.env, t.start(), i as nat, j);
        lemma_turn(t.env, t.start(), t.env.locals.len(), j);
    } else {
        lemma_before_turn(t.env, t.start(), i as nat, j);
    }
}

/// An agent sees no more copies of a sector than there are other agents that
/// declare it at some point of the round.
proof fn lemma_sight(
    net: Map<Seq<u8>, Member>,
    round: Seq<NodeTick>,
    next: Map<Seq<u8>, Member>,
    k: int,
    i: int,
    id: Seq<u8>,
    sector: int,
)
    requires
        sound(net),
        moves(net, round, next),
        0 <= sector < NUM_SECTORS,
        is_turn(round, k, i, id),
        gives_up(round[k], i, sector),
    ensures
        touching(net, round, sector).finite(),
        touching(net, round, sector).contains(id),
        sight(round[k], i)[sector] <= touching(net, round, sector).len() - 1,
{
    let t = round[k];
    let env = t.env;
    let all = touching(net, round, sector);
    assert(ticks_in(net, t));
    assert(net.contains_key(env.locals[i].agent));
    assert(all.subset_of(net.dom()));
    vstd::set_lib::lemma_set_subset_finite(net.dom(), all);
    assert(all.contains(id));
    lemma_tick_sound(net, t, i);
    let arcs = controller::passed(env, t.start(), i as nat).arcs;
    let pairs = controller::held(env.locals, arcs);
    let has = controller::held_by_other(id, sector);
    let siblings = Set::new(
        |other: Seq<u8>|
            all.contains(other) && snapshot::is_own(env.locals, other) && other != id,
    );
    let remote = remote_holders(net, env.locals, sector);
    assert forall|a: int, b: int| 0 <= a < b < pairs.len() implies (#[trigger] pairs[a]).0 != (
    #[trigger] pairs[b]).0 by {
        assert(env.locals[a].agent != env.locals[b].agent);
    }
    assert forall|j: int| 0 <= j < pairs.len() && has(#[trigger] pairs[j]) implies siblings.contains(
        pairs[j].0,
    ) by {
        let other = env.locals[j].agent;
        assert(net.contains_key(other));
        assert(is_turn(round, k, j, other));
        lemma_siblings(t, i, j);
    }
    assert(siblings.subset_of(all.remove(id)));
    vstd::set_lib::lemma_set_subset_finite(all, siblings);
    counting::lemma_count_at_most_keys(pairs, has, siblings);
    assert forall|other: Seq<u8>| #[trigger] remote.contains(other) implies all.remove(
        id,
    ).contains(other) by {
        assert(is_turn(round, k, i, id));
        assert(env.locals[i].agent == id);
        if takes_part(round, other) {
            let (l, j) = choose|l: int, j: int| #[trigger] is_turn(round, l, j, other);
            assert(ticks_in(net, round[l]));
            lemma_tick_sound(net, round[l], j);
            assert(round[l].env.locals[j].cur_arc == net[other].arc);
        }
    }
    assert(remote.subset_of(all.remove(id)));
    vstd::set_lib::lemma_set_subset_finite(all, remote);
    assert(siblings.disjoint(remote));
    vstd::set_lib::lemma_set_disjoint_lens(siblings, remote);
    vstd::set_lib::lemma_len_subset(siblings.union(remote), all.remove(id));
    counting::lemma_count_at_most_len(pairs, has);
    counting::lemma_count_at_most_len(env.peers, coverage::declares(env.gone, sector));
}

/// A sector that is held stays held through a round.
proof fn lemma_stays_held(
    net: Map<Seq<u8>, Member>,
    round: Seq<NodeTick>,
    next: Map<Seq<u8>, Member>,
    sector: int,
)
    requires
        sound(net),
        moves(net, round, next),
        considerate(net, round),
        0 <= sector < NUM_SECTORS,
        is_held(net, sector),
    ensures
        is_held(next, sector),
{
    let all = touching(net, round, sector);
    let going = leavers(net, round, sector);
    assert(all.subset_of(net.dom()));
    vstd::set_lib::lemma_set_subset_finite(net.dom(), all);
    assert(going.subset_of(all));
    vstd::set_lib::lemma_set_subset_finite(all, going);
    let one = choose|id: Seq<u8>|
        net.contains_key(id) && #[trigger] blocks::covers(net[id].arc, sector);
    assert(all.contains(one)) by {
        if takes_part(round, one) {
            let (k, i) = choose|k: int, i: int| #[trigger] is_turn(round, k, i, one);
            assert(ticks_in(net, round[k]));
            lemma_tick_sound(net, round[k], i);
            assert(round[k].env.locals[i].cur_arc == net[one].arc);
        }
    }
    assert(all.difference(going).len() > 0) by {
        if going.len() == 0 {
            assert(all.difference(going) =~= all);
            if all.len() == 0 {
                all.lemma_len0_is_empty();
            }
        } else {
            lemma_some_stay(net, round, next, sector);
        }
    }
    let stays = all.difference(going);
    if stays.len() > 0 {
        let id = stays.choose();
        assert(stays.contains(id));
        assert(next.contains_key(id));
        if takes_part(round, id) {
            let (k, i) = choose|k: int, i: int| #[trigger]
                is_turn(round, k, i, id) && (blocks::covers(round[k].start().arcs[i], sector)
                    || blocks::covers(round[k].end().arcs[i], sector));
            assert(!leaves(round, id, sector));
            assert(blocks::covers(round[k].end().arcs[i], sector));
        }
        assert(blocks::covers(next[id].arc, sector));
    }
}

/// The last agent of a tick that gives a sector up.
proof fn lemma_last_leaver(t: NodeTick, sector: int, n: int) -> (last: int)
    requires
        0 <= n <= t.env.locals.len(),
        exists|i: int| 0 <= i < n && #[trigger] gives_up(t, i, sector),
    ensures
        0 <= last < n,
        gives_up(t, last, sector),
        forall|i: int| last < i < n ==> !#[trigger] gives_up(t, i, sector),
    decreases n,
{
    if gives_up(t, n - 1, sector) {
        n - 1
    } else {
        lemma_last_leaver(t, sector, n - 1)
    }
}

/// An agent that gives a sector up sees a copy of it, with a sibling or
/// elsewhere.
proof fn lemma_saw_another(net: Map<Seq<u8>, Member>, t: NodeTick, i: int, sector: int)
    requires
        sound(net),
        ticks_in(net, t),
        0 <= i < t.env.locals.len(),
        0 <= sector < NUM_SECTORS,
        gives_up(t, i, sector),
    ensures
        counting::count(
            controller::held(
                t.env.locals,
                controller::passed(t.env, t.start(), i as nat).arcs,
            ),
            controller::held_by_other(t.env.locals[i].agent, sector),
        ) > 0 || coverage::copies(t.env.peers, t.env.gone, sector) > 0,
{
    let env = t.env;
    let id = env.locals[i].agent;
    lemma_giving_up(net, t, i, sector);
    if !env.cfg.agentinfo_encoding {
        assert(decide::copies_left(sight(t, i), env.live, id, true, sector)
            >= env.cfg.target_redundancy);
    }
    assert(sight(t, i)[sector] > 0);
}

/// A sibling that declares a sector when the last agent gives it up keeps it.
proof fn lemma_sibling_keeps(t: NodeTick, last: int, j: int, sector: int)
    requires
        distinct_ids(t.env.locals),
        t.start().arcs.len() == t.env.locals.len(),
        0 <= last < t.env.locals.len(),
        0 <= j < t.env.locals.len(),
        j != last,
        forall|i: int| last < i < t.env.locals.len() ==> !#[trigger] gives_up(t, i, sector),
        blocks::covers(controller::passed(t.env, t.start(), last as nat).arcs[j], sector),
    ensures
        blocks::covers(t.end().arcs[j], sector),
{
    if j < last {
        lemma_turn(t.env, t.start(), last as nat, j);
        lemma_turn(t.env, t.start(), t.env.locals.len(), j);
    } else {
        lemma_before_turn(t.env, t.start(), last as nat, j);
        assert(!gives_up(t, j, sector));
    }
}

/// Where one node ticks, the last of its agents to give a sector up has seen
/// another that keeps it.
proof fn lemma_one_node_keeps_some(
    net: Map<Seq<u8>, Member>,
    round: Seq<NodeTick>,
    next: Map<Seq<u8>, Member>,
    sector: int,
) -> (stays: Seq<u8>)
    requires
        sound(net),
        moves(net, round, next),
        round.len() == 1,
        0 <= sector < NUM_SECTORS,
        exists|i: int| 0 <= i < round[0].env.locals.len() && #[trigger] gives_up(round[0], i, sector),
    ensures
        touching(net, round, sector).contains(stays),
        !leaves(round, stays, sector),
{
    let t = round[0];
    let locals = t.env.locals;
    let last = lemma_last_leaver(t, sector, locals.len() as int);
    assert(ticks_in(net, t));
    lemma_tick_sound(net, t, last);
    lemma_saw_another(net, t, last, sector);
    let pairs = controller::held(
        locals,
        controller::passed(t.env, t.start(), last as nat).arcs,
    );
    let has = controller::held_by_other(locals[last].agent, sector);
    if counting::count(pairs, has) > 0 {
        let j = counting::lemma_count_witness(pairs, has);
        let stays = locals[j].agent;
        lemma_sibling_keeps(t, last, j, sector);
        assert(net.contains_key(stays));
        assert(is_turn(round, 0, j, stays));
        assert forall|k: int, i: int| #[trigger] is_turn(round, k, i, stays) implies !gives_up(
            round[k],
            i,
            sector,
        ) by {
            assert(k == 0 && locals[i].agent == locals[j].agent);
            if i < j {
                assert(locals[i].agent != locals[j].agent);
            }
            if j < i {
                assert(locals[j].agent != locals[i].agent);
            }
        }
        stays
    } else {
        let remote = remote_holders(net, locals, sector);
        assert(remote.subset_of(net.dom()));
        vstd::set_lib::lemma_set_subset_finite(net.dom(), remote);
        assert(coverage::copies(t.env.peers, t.env.gone, sector) <= remote.len());
        let stays = remote.choose();
        assert(remote.contains(stays));
        assert(!takes_part(round, stays)) by {
            if takes_part(round, stays) {
                let (k, i) = choose|k: int, i: int| #[trigger] is_turn(round, k, i, stays);
                assert(k == 0 && locals[i].agent == stays);
            }
        }
        stays
    }
}

/// Not all agents leave a sector that some leave.
proof fn lemma_some_stay(
    net: Map<Seq<u8>, Member>,
    round: Seq<NodeTick>,
    next: Map<Seq<u8>, Member>,
    sector: int,
)
    requires
        sound(net),
        moves(net, round, next),
        considerate(net, round),
        0 <= sector < NUM_SECTORS,
        leavers(net, round, sector).len() > 0,
    ensures
        touching(net, round, sector).difference(leavers(net, round, sector)).len() > 0,
{
    let all = touching(net, round, sector);
    let going = leavers(net, round, sector);
    assert(all.subset_of(net.dom()));
    vstd::set_lib::lemma_set_subset_finite(net.dom(), all);
    assert(going.subset_of(all));
    vstd::set_lib::lemma_set_subset_finite(all, going);
    assert(all.intersect(going) =~= going);
    vstd::set_lib::lemma_set_difference_len(all, going);
    if round.len() <= 1 {
        let leaver = going.choose();
        assert(going.contains(leaver));
        let (k, i) = leaving_turn(round, leaver, sector);
        assert(is_turn(round, k, i, leaver) && gives_up(round[0], i, sector));
        let stays = lemma_one_node_keeps_some(net, round, next, sector);
        assert(all.difference(going).contains(stays));
    } else if exists|k: int, i: int, id: Seq<u8>| #[trigger]
        is_turn(round, k, i, id) && gives_up(round[k], i, sector)
            && round[k].env.cfg.agentinfo_encoding {
        let (k, i, id) = choose|k: int, i: int, id: Seq<u8>| #[trigger]
            is_turn(round, k, i, id) && gives_up(round[k], i, sector)
                && round[k].env.cfg.agentinfo_encoding;
        assert(ticks_in(net, round[k]));
        lemma_giving_up(net, round[k], i, sector);
        lemma_sight(net, round, next, k, i, id, sector);
    } else {
        let cov = Map::new(
            |id: Seq<u8>| going.contains(id),
            |id: Seq<u8>|
                sight(
                    round[leaving_turn(round, id, sector).0],
                    leaving_turn(round, id, sector).1,
                ),
        );
        let live = Map::new(
            |id: Seq<u8>| going.contains(id),
            |id: Seq<u8>| round[leaving_turn(round, id, sector).0].env.live,
        );
        let vacate = Map::new(
            |id: Seq<u8>| going.contains(id),
            |id: Seq<u8>|
                {
                    let t = round[leaving_turn(round, id, sector).0];
                    met(t.env, t.start(), leaving_turn(round, id, sector).1).pending->0.vacate
                },
        );
        assert forall|id: Seq<u8>| #[trigger] going.contains(id) implies {
            &&& blocks::in_range(vacate[id], sector)
            &&& cov[id][sector] <= all.len() - 1
            &&& decide::may_shrink(cov[id], live[id], id, vacate[id], 1)
        } by {
            let (k, i) = leaving_turn(round, id, sector);
            assert(is_turn(round, k, i, id) && gives_up(round[k], i, sector));
            assert(ticks_in(net, round[k]));
            lemma_giving_up(net, round[k], i, sector);
            lemma_sight(net, round, next, k, i, id, sector);
        }
        assert forall|id: Seq<u8>, first: Seq<u8>|
            going.contains(id) && going.contains(first) && #[trigger] ids::lex_lt(
                first,
                id,
            ) implies handoff::announces(live[id], first, sector) by {
            let (k, i) = leaving_turn(round, id, sector);
            assert(is_turn(round, k, i, id) && gives_up(round[k], i, sector));
            assert(leaves(round, first, sector));
        }
        handoff::law_concurrent_shrinks_keep_the_target(
            all,
            going,
            cov,
            live,
            vacate,
            sector,
            1,
        );
    }
}

/// A round leaves the network sound.
proof fn lemma_stays_sound(
    net: Map<Seq<u8>, Member>,
    round: Seq<NodeTick>,
    next: Map<Seq<u8>, Member>,
)
    requires
        sound(net),
        moves(net, round, next),
    ensures
        sound(next),
{
    assert forall|id: Seq<u8>| #[trigger] next.contains_key(id) implies (
    next[id].ctl matches Some(ctl) ==> sound_member(next[id].arc, ctl)) by {
        assert(net.contains_key(id));
        if takes_part(round, id) {
            let (k, i) = choose|k: int, i: int| #[trigger] is_turn(round, k, i, id);
            assert(ticks_in(net, round[k]));
            lemma_tick_sound(net, round[k], i);
        }
    }
}

/// Sharding orphans no sector. Where every sector is declared by some agent of
/// a network, it still is after any number of rounds, in each of which any of
/// the nodes tick and arcs grow, but no agent leaves; provided that in each
/// round the nodes count no more remote holders than there are and, where
/// several tick at once, the agents know of each other what [`considerate`]
/// says.
pub proof fn law_no_sector_is_orphaned(
    nets: Seq<Map<Seq<u8>, Member>>,
    rounds: Seq<Seq<NodeTick>>,
    n: int,
)
    requires
        nets.len() == rounds.len() + 1,
        0 <= n < nets.len(),
        sound(nets[0]),
        all_held(nets[0]),
        forall|k: int|
            0 <= k < rounds.len() ==> {
                &&& moves(nets[k], #[trigger] rounds[k], nets[k + 1])
                &&& considerate(nets[k], rounds[k])
            },
    ensures
        sound(nets[n]),
        all_held(nets[n]),
    decreases n,
{
    if n > 0 {
        law_no_sector_is_orphaned(nets, rounds, n - 1);
        let net = nets[n - 1];
        let round = rounds[n - 1];
        let next = nets[n];
        assert(moves(net, round, next) && considerate(net, round));
        lemma_stays_sound(net, round, next);
        assert forall|s: int| 0 <= s < NUM_SECTORS implies #[trigger] is_held(next, s) by {
            assert(is_held(net, s));
            lemma_stays_held(net, round, next, s);
        }
    }
}

} // verus!
