//! The sharding controller: decides target arcs and coordinates shrinks.

use crate::blocks;
use crate::blocks::{block_arc, home_sector, MAX_LEVEL, NUM_SECTORS, SECTOR_SIZE};
use crate::config::K2ShardingConfig;
use crate::counting;
use crate::coverage;
use crate::coverage::{add_arc, others_coverage, PeerInfo, PeerView};
use crate::decide;
use crate::decide::{try_tick_agent, AgentControl, Claim, IntentChange, Tick};
use crate::dht_arc;
use crate::dht_arc::DhtArc;
use crate::ids::{bytes_copy, bytes_eq, AgentId, AgentSet, SpaceId};
use crate::intents;
use crate::intents::{retain_declared, IntentTable, ShrinkIntent};
use crate::protocol;
use crate::protocol::{deserialize_sharding_message, K2ShardingMessage, Msg, ShardingError};
use crate::snapshot;
use crate::snapshot::{
    collect_declared, collect_gone, collect_own, count_visible, LocalAgent, LocalView,
};
use crate::tables;
use crate::tables::ByteTable;
use crate::text::str_eq;
use vstd::prelude::*;

verus! {

/// The module name for use when registering as a module handler.
pub const SHARDING_MOD_NAME: &'static str = "k2sharding";

/// The sharding module: what it keeps from one tick to the next.
#[derive(Debug)]
pub struct K2Sharding {
    /// The module's configuration.
    pub config: K2ShardingConfig,
    /// The space whose arcs it manages.
    pub space_id: SpaceId,
    /// The announced shrinks, of peers and of local agents.
    pub intents: IntentTable,
    /// The state of each local agent.
    pub states: ByteTable<AgentControl>,
    /// Peers seen as gone (unresponsive or tombstoned) last tick, to detect
    /// fresh departures.
    pub last_gone: AgentSet,
}

/// Every state is consistent.
pub open spec fn states_wf(states: Map<Seq<u8>, AgentControl>) -> bool {
    forall|id: Seq<u8>| #[trigger] states.contains_key(id) ==> states[id].wf()
}

/// Every intent vacates sectors.
pub open spec fn table_wf(table: Map<Seq<u8>, ShrinkIntent>) -> bool {
    forall|id: Seq<u8>| #[trigger]
        table.contains_key(id) ==> intents::on_ring(table[id].vacate)
}

impl K2Sharding {
    /// Every agent's state is consistent, and every intent vacates sectors.
    pub open spec fn wf(&self) -> bool {
        &&& self.intents.wf()
        &&& self.states.wf()
        &&& states_wf(self.states@)
        &&& table_wf(self.intents@)
    }

    /// A module for the space, with nothing decided yet.
    pub fn create(config: K2ShardingConfig, space_id: SpaceId) -> (sharding: K2Sharding)
        ensures
            sharding.wf(),
            sharding.config == config,
            sharding.space_id@ == space_id@,
            sharding.intents@ == Map::<Seq<u8>, ShrinkIntent>::empty(),
            sharding.states@ == Map::<Seq<u8>, AgentControl>::empty(),
            sharding.last_gone@ == Set::<Seq<u8>>::empty(),
    {
        K2Sharding {
            config,
            space_id,
            intents: IntentTable::default(),
            states: ByteTable::new(),
            last_gone: AgentSet::new(),
        }
    }
}

// ---------------------------------------------------------------------------
// Announcements from peers.

/// The intent that a message announces, if it is one to note: it has not
/// expired, it does not wrap the ring, and it spans no more than half of it.
pub open spec fn announced(now: i64, msg: Option<protocol::IntentMessageView>) -> Option<
    (Seq<u8>, ShrinkIntent),
> {
    match msg {
        Some(intent) => {
            let start = intent.vacate_start as int / SECTOR_SIZE as int;
            let end = intent.vacate_end as int / SECTOR_SIZE as int + 1;
            if intent.expires_at_us <= now || intent.vacate_end < intent.vacate_start || end - start
                > NUM_SECTORS / 2 {
                None
            } else {
                Some(
                    (
                        intent.agent_id,
                        ShrinkIntent {
                            vacate: (start as u32, end as u32),
                            expires_at: intent.expires_at_us,
                        },
                    ),
                )
            }
        },
        None => None,
    }
}

/// The table once a message is noted.
pub open spec fn noted(
    table: Map<Seq<u8>, ShrinkIntent>,
    now: i64,
    msg: Option<protocol::IntentMessageView>,
) -> Map<Seq<u8>, ShrinkIntent> {
    match announced(now, msg) {
        Some((id, intent)) => table.insert(id, intent),
        None => table,
    }
}

impl K2Sharding {
    /// Notes what a message announces.
    pub fn note_message(&mut self, now: i64, msg: K2ShardingMessage)
        requires
            old(self).wf(),
        ensures
            final(self).wf(),
            final(self).intents@ == noted(old(self).intents@, now, msg@),
            final(self).states == old(self).states,
            final(self).last_gone == old(self).last_gone,
            final(self).config == old(self).config,
            final(self).space_id == old(self).space_id,
    {
        match msg.msg {
            Some(Msg::ShrinkIntent(intent)) => {
                if intent.expires_at_us <= now {
                    return;
                }
                // Block halves never wrap the ring; ignore anything else.
                if intent.vacate_end < intent.vacate_start {
                    return;
                }
                let start: u32 = intent.vacate_start / SECTOR_SIZE;
                let end: u32 = intent.vacate_end / SECTOR_SIZE + 1;
                // A vacate range is always half of an aligned block, so it
                // can never span more than half the ring. (Containment in the
                // announcer's declared arc is checked when the intent is used,
                // where a peer-store snapshot is in hand.)
                if end - start > NUM_SECTORS / 2 {
                    return;
                }
                self.intents.insert(
                    AgentId::new(intent.agent_id),
                    ShrinkIntent { vacate: (start, end), expires_at: intent.expires_at_us },
                );
            },
            None => {},
        }
    }

    /// Receives a message of a peer. What is for another space or module is
    /// ignored.
    pub fn recv_module_msg(
        &mut self,
        now: i64,
        space_id: &SpaceId,
        module: &str,
        data: &[u8],
    ) -> (out: Result<(), ShardingError>)
        requires
            old(self).wf(),
        ensures
            final(self).wf(),
            ({
                let ours = space_id@ == old(self).space_id@ && module@ == SHARDING_MOD_NAME@;
                match protocol::read_message(data@, None) {
                    Some(msg) => {
                        &&& out is Ok
                        &&& final(self).intents@ == if ours {
                            noted(old(self).intents@, now, msg)
                        } else {
                            old(self).intents@
                        }
                    },
                    None => {
                        &&& out == if ours {
                            Err::<(), ShardingError>(ShardingError::BadMessage)
                        } else {
                            Ok(())
                        }
                        &&& final(self).intents@ == old(self).intents@
                    },
                }
            }),
            forall|msg: Option<protocol::IntentMessageView>|
                data@ == #[trigger] protocol::message_bytes(msg) && space_id@ == old(
                    self,
                ).space_id@ && module@ == SHARDING_MOD_NAME@ ==> out is Ok
                    && final(self).intents@ == noted(old(self).intents@, now, msg),
            final(self).states == old(self).states,
            final(self).last_gone == old(self).last_gone,
            final(self).config == old(self).config,
            final(self).space_id == old(self).space_id,
    {
        if !bytes_eq(&space_id.bytes, &self.space_id.bytes) || !str_eq(module, SHARDING_MOD_NAME) {
            return Ok(());
        }
        match deserialize_sharding_message(data) {
            Ok(msg) => {
                self.note_message(now, msg);
                Ok(())
            },
            Err(e) => Err(e),
        }
    }
}

// ---------------------------------------------------------------------------
// The controller tick.

/// Something that a tick asks to be done, in this order.
#[derive(Debug)]
pub enum Effect {
    /// The local agent at a place in the snapshot is told about its arc.
    Tell(usize, Claim),
    /// A sharding message is sent to every reachable peer.
    Send(Vec<u8>),
}

/// An [`Effect`] with its message as a sequence of bytes.
pub enum EffectView {
    Tell(int, Claim),
    Send(Seq<u8>),
}

impl View for Effect {
    type V = EffectView;

    open spec fn view(&self) -> EffectView {
        match self {
            Effect::Tell(agent, claim) => EffectView::Tell(*agent as int, *claim),
            Effect::Send(bytes) => EffectView::Send(bytes@),
        }
    }
}

/// A list of effects.
pub open spec fn effect_views(effects: Seq<Effect>) -> Seq<EffectView> {
    Seq::new(effects.len(), |i: int| effects[i]@)
}

/// What changes while a tick goes through the agents.
#[verifier::ext_equal]
pub struct Pass {
    pub states: Map<Seq<u8>, AgentControl>,
    pub intents: Map<Seq<u8>, ShrinkIntent>,
    pub arcs: Seq<DhtArc>,
    pub effects: Seq<EffectView>,
}

/// What stays the same while a tick goes through the agents.
pub struct Surroundings {
    pub cfg: K2ShardingConfig,
    pub locals: Seq<LocalView>,
    pub peers: Seq<PeerView>,
    pub gone: Set<Seq<u8>>,
    pub live: Seq<(Seq<u8>, ShrinkIntent)>,
    pub tick: Tick,
}

/// The arcs that the local agents declare.
pub open spec fn cur_arcs(locals: Seq<LocalView>) -> Seq<DhtArc> {
    Seq::new(locals.len(), |i: int| locals[i].cur_arc)
}

/// Each local agent with an arc.
pub open spec fn held(locals: Seq<LocalView>, arcs: Seq<DhtArc>) -> Seq<(Seq<u8>, DhtArc)> {
    Seq::new(locals.len(), |i: int| (locals[i].agent, arcs[i]))
}

/// Being another agent whose arc covers a sector.
pub open spec fn held_by_other(id: Seq<u8>, sector: int) -> spec_fn((Seq<u8>, DhtArc)) -> bool {
    |entry: (Seq<u8>, DhtArc)| entry.0 != id && blocks::covers(entry.1, sector)
}

/// The redundancy that an agent sees around itself: responsive peers and
/// sibling local agents, without itself.
pub open spec fn seen_coverage(env: Surroundings, arcs: Seq<DhtArc>, id: Seq<u8>) -> Seq<u32> {
    Seq::new(
        NUM_SECTORS as nat,
        |s: int|
            (coverage::copies(env.peers, env.gone, s) + counting::count(
                held(env.locals, arcs),
                held_by_other(id, s),
            )) as u32,
    )
}

/// How many agents there are in sight.
pub open spec fn visible(env: Surroundings) -> int {
    (counting::count(env.peers, coverage::counted(env.gone)) + env.locals.len()) as int
}

/// The state of an agent that the controller meets for the first time.
pub open spec fn newcomer(loc: u32) -> AgentControl {
    AgentControl {
        home: (loc / SECTOR_SIZE) as u32,
        declared_level: MAX_LEVEL,
        target_level: MAX_LEVEL,
        grow_acc: 0,
        shrink_acc: 0,
        pending: None,
    }
}

/// An agent that is met for the first time starts at the full arc.
pub open spec fn enrolled(env: Surroundings, pass: Pass, i: int) -> Pass {
    if pass.states.contains_key(env.locals[i].agent) {
        pass
    } else {
        Pass {
            states: pass.states.insert(env.locals[i].agent, newcomer(env.locals[i].loc)),
            effects: pass.effects.push(EffectView::Tell(i, Claim::Target(dht_arc::full_arc()))),
            ..pass
        }
    }
}

/// The effects of one decision.
pub open spec fn step_effects(i: int, step: decide::StepView) -> Seq<EffectView> {
    let told = match step.claim {
        Some(claim) => seq![EffectView::Tell(i, claim)],
        None => Seq::empty(),
    };
    match step.broadcast {
        Some(bytes) => told.push(EffectView::Send(bytes)),
        None => told,
    }
}

/// One decision carried out.
pub open spec fn applied(pass: Pass, i: int, id: Seq<u8>, step: decide::StepView) -> Pass {
    Pass {
        states: pass.states.insert(id, step.ctl),
        intents: match step.intent {
            IntentChange::Keep => pass.intents,
            IntentChange::Forget => pass.intents.remove(id),
            IntentChange::Announce(intent) => pass.intents.insert(id, intent),
        },
        arcs: match step.claim {
            Some(Claim::Declare(arc)) => pass.arcs.update(i, arc),
            _ => pass.arcs,
        },
        effects: pass.effects + step_effects(i, step),
    }
}

/// The decision for the agent at a place in the snapshot.
pub open spec fn agent_step(env: Surroundings, pass: Pass, i: int) -> decide::StepView {
    let id = env.locals[i].agent;
    decide::tick_step(
        env.cfg,
        id,
        enrolled(env, pass, i).states[id],
        pass.arcs[i],
        seen_coverage(env, pass.arcs, id),
        env.live,
        visible(env),
        env.tick,
    )
}

/// The agent at a place in the snapshot has its turn.
pub open spec fn visited(env: Surroundings, pass: Pass, i: int) -> Pass {
    applied(enrolled(env, pass, i), i, env.locals[i].agent, agent_step(env, pass, i))
}

/// The first `n` agents have their turns, in order.
pub open spec fn passed(env: Surroundings, pass: Pass, n: nat) -> Pass
    decreases n,
{
    if n == 0 {
        pass
    } else {
        visited(env, passed(env, pass, (n - 1) as nat), n - 1)
    }
}

/// A pending shrink called off.
pub open spec fn calmed() -> spec_fn(AgentControl) -> AgentControl {
    |ctl: AgentControl|
        if ctl.pending is Some {
            AgentControl { pending: None, shrink_acc: 0, ..ctl }
        } else {
            ctl
        }
}

/// Whether an agent has a shrink pending.
pub open spec fn has_pending(states: Map<Seq<u8>, AgentControl>, id: Seq<u8>) -> bool {
    states.contains_key(id) && states[id].pending is Some
}

/// The intents without those of agents that have a shrink pending.
pub open spec fn without_pending(
    intents: Map<Seq<u8>, ShrinkIntent>,
    states: Map<Seq<u8>, AgentControl>,
) -> Map<Seq<u8>, ShrinkIntent> {
    intents.restrict(Set::new(|id: Seq<u8>| !has_pending(states, id)))
}

/// Whether the agent at a place in the snapshot is the first with its id and
/// has a shrink pending.
pub open spec fn called_off(
    locals: Seq<LocalView>,
    states: Map<Seq<u8>, AgentControl>,
    i: int,
) -> bool {
    &&& has_pending(states, locals[i].agent)
    &&& forall|j: int| 0 <= j < i ==> (#[trigger] locals[j]).agent != locals[i].agent
}

/// The arc that an agent declared before it announced its shrink.
pub open spec fn wide_arc(ctl: AgentControl) -> DhtArc {
    blocks::block_arc_at(ctl.home as int, ctl.declared_level as int)
}

/// The arcs once the claims that were narrowed for a pending shrink are
/// widened back.
pub open spec fn widened_arcs(
    locals: Seq<LocalView>,
    states: Map<Seq<u8>, AgentControl>,
    arcs: Seq<DhtArc>,
) -> Seq<DhtArc> {
    Seq::new(
        arcs.len(),
        |i: int|
            if called_off(locals, states, i) {
                wide_arc(states[locals[i].agent])
            } else {
                arcs[i]
            },
    )
}

/// The claims that widen the arcs back.
pub open spec fn widening(
    locals: Seq<LocalView>,
    states: Map<Seq<u8>, AgentControl>,
    n: nat,
) -> Seq<EffectView>
    decreases n,
{
    if n == 0 {
        Seq::empty()
    } else {
        let before = widening(locals, states, (n - 1) as nat);
        if called_off(locals, states, n - 1) {
            before.push(
                EffectView::Tell(n - 1, Claim::Declare(wide_arc(states[locals[n - 1].agent]))),
            )
        } else {
            before
        }
    }
}

/// Whether a peer has become invisible since the last tick.
pub open spec fn newly_gone(
    gone: Set<Seq<u8>>,
    last_gone: Set<Seq<u8>>,
    own: Set<Seq<u8>>,
) -> bool {
    exists|id: Seq<u8>| #[trigger] gone.contains(id) && !last_gone.contains(id) && !own.contains(id)
}

/// The storm brake: where a peer has newly become invisible, the evidence
/// behind every pending intent is suspect, and all are called off. Under the
/// arc encoding the claims that were narrowed are widened back.
pub open spec fn braked(env: Surroundings, last_gone: Set<Seq<u8>>, pass: Pass) -> Pass {
    if newly_gone(env.gone, last_gone, snapshot::own_ids(env.locals)) {
        Pass {
            states: pass.states.map_values(calmed()),
            intents: without_pending(pass.intents, pass.states),
            arcs: if env.cfg.agentinfo_encoding {
                widened_arcs(env.locals, pass.states, pass.arcs)
            } else {
                pass.arcs
            },
            effects: if env.cfg.agentinfo_encoding {
                pass.effects + widening(env.locals, pass.states, env.locals.len())
            } else {
                pass.effects
            },
        }
    } else {
        pass
    }
}

/// The surroundings of a tick: the intents that count are those that have not
/// expired and that their announcer's arc bears out.
pub open spec fn surroundings(
    cfg: K2ShardingConfig,
    listing: Seq<(Seq<u8>, ShrinkIntent)>,
    locals: Seq<LocalView>,
    peers: Seq<PeerView>,
    unresponsive: Seq<bool>,
    tick: Tick,
) -> Surroundings {
    Surroundings {
        cfg,
        locals,
        peers,
        gone: snapshot::gone_ids(locals, peers, unresponsive),
        live: listing.filter(intents::unexpired(tick.now)).filter(
            intents::credible(snapshot::declared_arcs(peers), snapshot::own_ids(locals)),
        ),
        tick,
    }
}

/// Where a tick starts.
pub open spec fn first_pass(
    states: Map<Seq<u8>, AgentControl>,
    table: Map<Seq<u8>, ShrinkIntent>,
    env: Surroundings,
) -> Pass {
    Pass {
        states,
        intents: intents::without_expired(table, env.tick.now),
        arcs: cur_arcs(env.locals),
        effects: Seq::empty(),
    }
}

/// Where the agents' turns start: the storm brake comes before them.
pub open spec fn opening(
    states: Map<Seq<u8>, AgentControl>,
    table: Map<Seq<u8>, ShrinkIntent>,
    last_gone: Set<Seq<u8>>,
    env: Surroundings,
) -> Pass {
    braked(env, last_gone, first_pass(states, table, env))
}

/// Where a tick ends: the brake first, and then every agent in order.
pub open spec fn ticked(
    states: Map<Seq<u8>, AgentControl>,
    table: Map<Seq<u8>, ShrinkIntent>,
    last_gone: Set<Seq<u8>>,
    env: Surroundings,
) -> Pass {
    passed(env, opening(states, table, last_gone, env), env.locals.len())
}

/// What the decision for the agent at a place in the snapshot computes are
/// machine integers.
pub open spec fn step_fits(env: Surroundings, pass: Pass, i: int) -> bool {
    let id = env.locals[i].agent;
    decide::turn_fits(
        env.cfg,
        id,
        enrolled(env, pass, i).states[id],
        pass.arcs[i],
        seen_coverage(env, pass.arcs, id),
        env.live,
        visible(env),
        env.tick,
    )
}

/// The same of the agent whose turn comes after `i` turns.
pub open spec fn turn_fits_at(env: Surroundings, start: Pass, i: int) -> bool {
    step_fits(env, passed(env, start, i as nat), i)
}

/// What the first `n` turns compute are machine integers.
pub open spec fn turns_fit(env: Surroundings, start: Pass, n: nat) -> bool {
    forall|i: int| 0 <= i < n ==> #[trigger] turn_fits_at(env, start, i)
}

/// The coverage that one agent sees: that of peers and that of its siblings.
fn agent_coverage(
    base: &[u32],
    locals: &[LocalAgent],
    arcs: &Vec<DhtArc>,
    id: &AgentId,
    env: Ghost<Surroundings>,
) -> (cov: Vec<u32>)
    requires
        env@.locals == snapshot::local_views(locals@),
        arcs@.len() == locals@.len(),
        base@.len() == NUM_SECTORS,
        forall|s: int|
            0 <= s < NUM_SECTORS ==> #[trigger] base@[s] == coverage::copies(
                env@.peers,
                env@.gone,
                s,
            ),
        env@.peers.len() + locals@.len() <= u32::MAX,
    ensures
        cov@ == seen_coverage(env@, arcs@, id@),
{
    let ghost pairs = held(env@.locals, arcs@);
    let mut cov: Vec<u32> = Vec::new();
    let mut n: usize = 0;
    while n < base.len()
        invariant
            n <= base@.len(),
            cov@ == base@.take(n as int),
        decreases base@.len() - n,
    {
        cov.push(base[n]);
        n = n + 1;
        assert(base@.take(n as int) =~= base@.take(n - 1).push(base@[n - 1]));
    }
    assert(base@.take(n as int) =~= base@);
    let mut j: usize = 0;
    assert(pairs.take(0) =~= Seq::<(Seq<u8>, DhtArc)>::empty());
    while j < locals.len()
        invariant
            j <= locals@.len(),
            env@.locals == snapshot::local_views(locals@),
            arcs@.len() == locals@.len(),
            pairs == held(env@.locals, arcs@),
            env@.peers.len() + locals@.len() <= u32::MAX,
            cov@.len() == NUM_SECTORS,
            forall|s: int|
                0 <= s < NUM_SECTORS ==> #[trigger] cov@[s] == coverage::copies(
                    env@.peers,
                    env@.gone,
                    s,
                ) + counting::count(pairs.take(j as int), held_by_other(id@, s)),
        decreases locals@.len() - j,
    {
        let ghost before = cov@;
        proof {
            assert(pairs[j as int] == (locals@[j as int].agent@, arcs@[j as int]));
            assert forall|s: int| 0 <= s < NUM_SECTORS implies #[trigger] before[s] < u32::MAX by {
                counting::lemma_count_at_most_len(pairs.take(j as int), held_by_other(id@, s));
                counting::lemma_count_at_most_len(
                    env@.peers,
                    coverage::declares(env@.gone, s),
                );
            }
        }
        if !locals[j].agent.same(id) {
            add_arc(&mut cov, &arcs[j]);
        }
        proof {
            assert forall|s: int| 0 <= s < NUM_SECTORS implies #[trigger] cov@[s]
                == coverage::copies(env@.peers, env@.gone, s) + counting::count(
                pairs.take(j + 1),
                held_by_other(id@, s),
            ) by {
                counting::lemma_count_take(pairs, held_by_other(id@, s), j as int);
                assert(before[s] == coverage::copies(env@.peers, env@.gone, s) + counting::count(
                    pairs.take(j as int),
                    held_by_other(id@, s),
                ));
            }
        }
        j = j + 1;
    }
    assert(pairs.take(j as int) =~= pairs);
    assert(cov@ =~= seen_coverage(env@, arcs@, id@));
    cov
}

impl K2Sharding {
    /// Calls off every pending shrink.
    fn cancel_pending(&mut self)
        requires
            old(self).wf(),
        ensures
            final(self).wf(),
            final(self).states@ == old(self).states@.map_values(calmed()),
            final(self).intents@ == without_pending(old(self).intents@, old(self).states@),
            final(self).last_gone == old(self).last_gone,
            final(self).config == old(self).config,
            final(self).space_id == old(self).space_id,
    {
        let ghost list = self.states.listing();
        let ghost states = self.states@;
        let ghost table = self.intents@;
        let mut k: usize = 0;
        while k < self.states.len()
            invariant
                k <= list.len(),
                self.states.wf(),
                self.intents.wf(),
                states == tables::as_table(list),
                tables::distinct_keys(list),
                table == old(self).intents@,
                self.states.listing().len() == list.len(),
                forall|j: int|
                    0 <= j < list.len() ==> #[trigger] self.states.listing()[j] == if j < k {
                        (list[j].0, calmed()(list[j].1))
                    } else {
                        list[j]
                    },
                forall|id: Seq<u8>| #[trigger]
                    self.intents@.contains_key(id) <==> table.contains_key(id) && !(exists|j: int|
                        0 <= j < k && (#[trigger] list[j]).0 == id && list[j].1.pending is Some),
                forall|id: Seq<u8>| #[trigger]
                    self.intents@.contains_key(id) ==> self.intents@[id] == table[id],
                self.last_gone == old(self).last_gone,
                self.config == old(self).config,
                self.space_id == old(self).space_id,
            decreases list.len() - k,
        {
            let mut ctl = self.states.value_at(k);
            let ghost before = self.intents@;
            assert(self.states.listing()[k as int] == list[k as int]);
            if ctl.pending.is_some() {
                ctl.pending = None;
                ctl.shrink_acc = 0;
                let id = AgentId::new(bytes_copy(self.states.key_at(k)));
                self.states.set_at(k, ctl);
                self.intents.remove(&id);
                assert(id@ == list[k as int].0);
                assert forall|other: Seq<u8>| #[trigger]
                    self.intents@.contains_key(other) <==> table.contains_key(other) && !(exists|
                        j: int,
                    |
                        0 <= j < k + 1 && (#[trigger] list[j]).0 == other
                            && list[j].1.pending is Some) by {
                    if exists|j: int|
                        0 <= j < k + 1 && (#[trigger] list[j]).0 == other
                            && list[j].1.pending is Some {
                        let j = choose|j: int|
                            0 <= j < k + 1 && (#[trigger] list[j]).0 == other
                                && list[j].1.pending is Some;
                        if j < k {
                            assert(!before.contains_key(other));
                        }
                    }
                    assert(before.contains_key(other) == before.contains_key(other));
                    assert(list[k as int].0 == id@ && list[k as int].1.pending is Some);
                }
            }
            k = k + 1;
        }
        proof {
            assert(self.states.listing() =~= tables::with_values(list, calmed()));
            tables::lemma_with_values(list, calmed());
            assert forall|id: Seq<u8>| #[trigger] has_pending(states, id) <==> (exists|j: int|
                0 <= j < list.len() && (#[trigger] list[j]).0 == id
                    && list[j].1.pending is Some) by {
                if has_pending(states, id) {
                    let j = choose|j: int| 0 <= j < list.len() && (#[trigger] list[j]).0 == id;
                    tables::lemma_entry(list, j);
                }
                if exists|j: int|
                    0 <= j < list.len() && (#[trigger] list[j]).0 == id
                        && list[j].1.pending is Some {
                    let j = choose|j: int|
                        0 <= j < list.len() && (#[trigger] list[j]).0 == id
                            && list[j].1.pending is Some;
                    tables::lemma_entry(list, j);
                }
            }
            assert(self.intents@ =~= without_pending(table, states));
        }
    }

    /// The storm brake: calls off every pending shrink where a peer has newly
    /// become invisible, and remembers who is gone now.
    fn brake(
        &mut self,
        own: &AgentSet,
        gone: AgentSet,
        locals: &[LocalAgent],
        arcs: &mut Vec<DhtArc>,
        effects: &mut Vec<Effect>,
        env: Ghost<Surroundings>,
    )
        requires
            old(self).wf(),
            env@.cfg == old(self).config,
            env@.locals == snapshot::local_views(locals@),
            env@.gone == gone@,
            own@ == snapshot::own_ids(env@.locals),
            old(arcs)@ == cur_arcs(env@.locals),
            old(effects)@.len() == 0,
        ensures
            final(self).wf(),
            ({
                let pass = braked(
                    env@,
                    old(self).last_gone@,
                    Pass {
                        states: old(self).states@,
                        intents: old(self).intents@,
                        arcs: old(arcs)@,
                        effects: Seq::empty(),
                    },
                );
                &&& final(self).states@ == pass.states
                &&& final(self).intents@ == pass.intents
                &&& final(arcs)@ == pass.arcs
                &&& effect_views(final(effects)@) == pass.effects
            }),
            final(self).last_gone@ == gone@,
            final(self).config == old(self).config,
            final(self).space_id == old(self).space_id,
    {
        let mut fresh = false;
        let mut k: usize = 0;
        while k < gone.members.len()
            invariant
                k <= gone.members@.len(),
                self.last_gone == old(self).last_gone,
                fresh == exists|j: int|
                    0 <= j < k && !old(self).last_gone@.contains(#[trigger] gone.members@[j]@)
                        && !own@.contains(gone.members@[j]@),
            decreases gone.members@.len() - k,
        {
            let id = &gone.members[k];
            if !self.last_gone.contains(id) && !own.contains(id) {
                fresh = true;
                assert(!old(self).last_gone@.contains(gone.members@[k as int]@));
            }
            k = k + 1;
        }
        proof {
            if fresh {
                let j = choose|j: int|
                    0 <= j < k && !old(self).last_gone@.contains(#[trigger] gone.members@[j]@)
                        && !own@.contains(gone.members@[j]@);
                assert(gone@.contains(gone.members@[j]@));
            }
            if newly_gone(gone@, old(self).last_gone@, own@) {
                let id = choose|id: Seq<u8>| #[trigger]
                    gone@.contains(id) && !old(self).last_gone@.contains(id) && !own@.contains(id);
                let j = choose|j: int|
                    0 <= j < gone.members@.len() && #[trigger] gone.members@[j]@ == id;
                assert(!old(self).last_gone@.contains(gone.members@[j]@));
            }
            assert(fresh == newly_gone(gone@, old(self).last_gone@, own@));
        }
        self.last_gone = gone;
        assert(effect_views(effects@) =~= Seq::<EffectView>::empty());
        if fresh {
            if self.config.agentinfo_encoding {
                self.widen_back(locals, arcs, effects, env);
            }
            self.cancel_pending();
        }
    }

    /// Widens the claims back that were narrowed for a pending shrink. Without
    /// this an agent would be left declaring less than its level, which would
    /// block every later decision, including the growth that the brake exists
    /// to allow.
    fn widen_back(
        &self,
        locals: &[LocalAgent],
        arcs: &mut Vec<DhtArc>,
        effects: &mut Vec<Effect>,
        env: Ghost<Surroundings>,
    )
        requires
            self.wf(),
            env@.locals == snapshot::local_views(locals@),
            old(arcs)@.len() == locals@.len(),
            old(effects)@.len() == 0,
        ensures
            final(arcs)@ == widened_arcs(env@.locals, self.states@, old(arcs)@),
            effect_views(final(effects)@) == widening(env@.locals, self.states@, locals@.len()),
    {
        let ghost views = env@.locals;
        let mut i: usize = 0;
        assert(effect_views(effects@) =~= Seq::<EffectView>::empty());
        while i < locals.len()
            invariant
                self.wf(),
                i <= locals@.len(),
                views == snapshot::local_views(locals@),
                views == env@.locals,
                old(arcs)@.len() == locals@.len(),
                arcs@.len() == locals@.len(),
                forall|j: int|
                    0 <= j < locals@.len() ==> #[trigger] arcs@[j] == if j < i && called_off(
                        views,
                        self.states@,
                        j,
                    ) {
                        wide_arc(self.states@[views[j].agent])
                    } else {
                        old(arcs)@[j]
                    },
                effect_views(effects@) == widening(views, self.states@, i as nat),
            decreases locals@.len() - i,
        {
            let ghost before = effect_views(effects@);
            let first = Self::is_first(locals, i);
            assert(views[i as int].agent == locals@[i as int].agent@);
            let mut called = false;
            if first {
                if let Some(ctl) = self.states.get(&locals[i].agent.bytes) {
                    if ctl.pending.is_some() {
                        let arc = block_arc(ctl.home, ctl.declared_level);
                        arcs.set(i, arc);
                        effects.push(Effect::Tell(i, Claim::Declare(arc)));
                        called = true;
                        assert(effect_views(effects@) =~= before.push(
                            EffectView::Tell(i as int, Claim::Declare(arc)),
                        ));
                    }
                }
            }
            proof {
                assert(called == called_off(views, self.states@, i as int)) by {
                    assert(first == forall|j: int|
                        0 <= j < i ==> (#[trigger] views[j]).agent != views[i as int].agent) by {
                        if first {
                            assert forall|j: int| 0 <= j < i implies (#[trigger] views[j]).agent
                                != views[i as int].agent by {
                                assert(locals@[j].agent@ != locals@[i as int].agent@);
                            }
                        } else {
                            let j = choose|j: int|
                                0 <= j < i && (#[trigger] locals@[j]).agent@
                                    == locals@[i as int].agent@;
                            assert(views[j].agent == views[i as int].agent);
                        }
                    }
                }
            }
            i = i + 1;
        }
        assert(arcs@ =~= widened_arcs(views, self.states@, old(arcs)@));
    }

    /// Whether no agent before a place in the snapshot has the same id.
    fn is_first(locals: &[LocalAgent], i: usize) -> (first: bool)
        requires
            i < locals@.len(),
        ensures
            first <==> forall|j: int|
                0 <= j < i ==> (#[trigger] locals@[j]).agent@ != locals@[i as int].agent@,
    {
        let mut j: usize = 0;
        while j < i
            invariant
                j <= i < locals@.len(),
                forall|k: int|
                    0 <= k < j ==> (#[trigger] locals@[k]).agent@ != locals@[i as int].agent@,
            decreases i - j,
        {
            if locals[j].agent.same(&locals[i].agent) {
                return false;
            }
            j = j + 1;
        }
        true
    }
}

impl K2Sharding {
    /// The state of a tick in progress.
    pub open spec fn pass(&self, arcs: Seq<DhtArc>, effects: Seq<Effect>) -> Pass {
        Pass {
            states: self.states@,
            intents: self.intents@,
            arcs,
            effects: effect_views(effects),
        }
    }

    /// One local agent has its turn, unless a time that it computes is no machine
    /// integer.
    fn visit_agent(
        &mut self,
        i: usize,
        locals: &[LocalAgent],
        base: &[u32],
        live: &[(AgentId, ShrinkIntent)],
        visible_peers: u32,
        tick: Tick,
        arcs: &mut Vec<DhtArc>,
        effects: &mut Vec<Effect>,
        env: Ghost<Surroundings>,
    ) -> (fits: bool)
        requires
            old(self).wf(),
            i < locals@.len(),
            env@.cfg == old(self).config,
            env@.locals == snapshot::local_views(locals@),
            env@.live == intents::intent_views(live@),
            env@.tick == tick,
            visible_peers == visible(env@),
            forall|own: Seq<u8>| #[trigger] decide::ordered_ranges(env@.live, own, false),
            old(arcs)@.len() == locals@.len(),
            base@.len() == NUM_SECTORS,
            forall|s: int|
                0 <= s < NUM_SECTORS ==> #[trigger] base@[s] == coverage::copies(
                    env@.peers,
                    env@.gone,
                    s,
                ),
            env@.peers.len() + locals@.len() <= u32::MAX,
        ensures
            final(self).wf(),
            fits == step_fits(env@, old(self).pass(old(arcs)@, old(effects)@), i as int),
            fits ==> final(self).pass(final(arcs)@, final(effects)@) == visited(
                env@,
                old(self).pass(old(arcs)@, old(effects)@),
                i as int,
            ),
            !fits ==> *final(self) == *old(self),
            final(arcs)@.len() == locals@.len(),
            final(self).last_gone == old(self).last_gone,
            final(self).config == old(self).config,
            final(self).space_id == old(self).space_id,
    {
        let ghost start = self.pass(arcs@, effects@);
        let agent = &locals[i];
        let ghost id = agent.agent@;
        assert(env@.locals[i as int] == agent@);
        let cov = agent_coverage(base, locals, arcs, &agent.agent, env);
        let ctl = match self.states.get(&agent.agent.bytes) {
            Some(ctl) => ctl,
            None => {
                // Start at the full arc; the controller shrinks from there.
                effects.push(Effect::Tell(i, Claim::Target(DhtArc::full())));
                assert(effect_views(effects@) =~= start.effects.push(
                    EffectView::Tell(i as int, Claim::Target(dht_arc::full_arc())),
                ));
                AgentControl {
                    home: home_sector(agent.loc),
                    declared_level: MAX_LEVEL,
                    target_level: MAX_LEVEL,
                    grow_acc: 0,
                    shrink_acc: 0,
                    pending: None,
                }
            },
        };
        let ghost met = enrolled(env@, start, i as int);
        assert(met.states[id] == ctl);
        assert(effect_views(effects@) == met.effects);
        assert(decide::ordered_ranges(env@.live, id, false));
        let step = match try_tick_agent(
            &self.config,
            &agent.agent,
            ctl,
            arcs[i],
            &cov,
            live,
            visible_peers,
            tick,
        ) {
            Some(step) => step,
            None => return false,
        };
        let ghost decided = step@;
        assert(decided == agent_step(env@, start, i as int));
        self.states.insert(agent.agent.clone().bytes, step.ctl);
        match step.intent {
            IntentChange::Keep => {},
            IntentChange::Forget => {
                self.intents.remove(&agent.agent);
            },
            IntentChange::Announce(intent) => {
                self.intents.insert(agent.agent.clone(), intent);
            },
        }
        let ghost earlier = effect_views(effects@);
        if let Some(claim) = step.claim {
            if let Claim::Declare(arc) = claim {
                arcs.set(i, arc);
            }
            effects.push(Effect::Tell(i, claim));
            assert(effect_views(effects@) =~= earlier.push(EffectView::Tell(i as int, claim)));
        }
        let ghost told = effect_views(effects@);
        if let Some(message) = step.broadcast {
            effects.push(Effect::Send(message));
            assert(effect_views(effects@) =~= told.push(EffectView::Send(message@)));
        }
        proof {
            let goal = visited(env@, start, i as int);
            assert(effect_views(effects@) =~= met.effects + step_effects(i as int, decided));
            assert(self.states@ =~= goal.states);
            assert(self.intents@ =~= goal.intents);
            assert(arcs@ =~= goal.arcs);
            assert(self.pass(arcs@, effects@) =~= goal);
        }
        true
    }

    /// Forgets agents that have left the space.
    fn forget_departed(&mut self, own: &AgentSet)
        requires
            old(self).wf(),
        ensures
            final(self).wf(),
            final(self).states@ == old(self).states@.restrict(own@),
            final(self).intents == old(self).intents,
            final(self).last_gone == old(self).last_gone,
            final(self).config == old(self).config,
            final(self).space_id == old(self).space_id,
    {
        let ghost all = self.states@;
        let mut k: usize = 0;
        while k < self.states.len()
            invariant
                all == old(self).states@,
                self.states.wf(),
                k <= self.states.listing().len(),
                forall|j: int|
                    0 <= j < k ==> own@.contains((#[trigger] self.states.listing()[j]).0),
                forall|id: Seq<u8>| #[trigger]
                    self.states@.contains_key(id) ==> all.contains_key(id) && self.states@[id]
                        == all[id],
                forall|id: Seq<u8>| #[trigger]
                    all.contains_key(id) && own@.contains(id) ==> self.states@.contains_key(id),
                self.intents == old(self).intents,
                self.last_gone == old(self).last_gone,
                self.config == old(self).config,
                self.space_id == old(self).space_id,
            decreases self.states.listing().len() - k,
        {
            let id = AgentId::new(bytes_copy(self.states.key_at(k)));
            if own.contains(&id) {
                k = k + 1;
            } else {
                self.states.remove_at(k);
            }
        }
        proof {
            assert forall|id: Seq<u8>| #[trigger]
                self.states@.contains_key(id) implies own@.contains(id) by {
                let list = self.states.listing();
                let j = choose|j: int| 0 <= j < list.len() && (#[trigger] list[j]).0 == id;
                assert(own@.contains(self.states.listing()[j].0));
            }
            assert(self.states@ =~= all.restrict(own@));
        }
    }

    /// One controller tick over all local agents, up to the first whose turn
    /// computes a time that is no machine integer. The result, where there is no
    /// such agent, is what is to be done, in order.
    pub fn try_check(
        &mut self,
        locals: &[LocalAgent],
        peers: &[PeerInfo],
        unresponsive: &[bool],
        tick: Tick,
    ) -> (out: Option<Vec<Effect>>)
        requires
            old(self).wf(),
            unresponsive@.len() == peers@.len(),
            peers@.len() + locals@.len() <= u32::MAX,
        ensures
            final(self).wf(),
            final(self).config == old(self).config,
            final(self).space_id == old(self).space_id,
            locals@.len() == 0 ==> *final(self) == *old(self) && out is Some
                && (out->0)@.len() == 0,
            locals@.len() > 0 ==> {
                let env = surroundings(
                    old(self).config,
                    old(self).intents.listing(),
                    snapshot::local_views(locals@),
                    coverage::peer_views(peers@),
                    unresponsive@,
                    tick,
                );
                let start = opening(
                    old(self).states@,
                    old(self).intents@,
                    old(self).last_gone@,
                    env,
                );
                &&& final(self).last_gone@ == env.gone
                &&& out is Some <==> turns_fit(env, start, env.locals.len())
                &&& out matches Some(effects) ==> {
                    let end = passed(env, start, env.locals.len());
                    &&& effect_views(effects@) == end.effects
                    &&& final(self).states@ == end.states.restrict(snapshot::own_ids(env.locals))
                    &&& final(self).intents@ == end.intents
                }
                &&& out is None ==> exists|n: nat|
                    {
                        &&& n < env.locals.len()
                        &&& turns_fit(env, start, n)
                        &&& !turn_fits_at(env, start, n as int)
                        &&& final(self).states@ == (#[trigger] passed(env, start, n)).states
                        &&& final(self).intents@ == passed(env, start, n).intents
                    }
            },
    {
        let mut effects: Vec<Effect> = Vec::new();
        if locals.len() == 0 {
            return Some(effects);
        }
        let ghost env = surroundings(
            self.config,
            self.intents.listing(),
            snapshot::local_views(locals@),
            coverage::peer_views(peers@),
            unresponsive@,
            tick,
        );
        let own = collect_own(locals);
        // A dead peer's agent info lingers in the peer store long after gossip
        // has marked the peer unresponsive. Coverage must not count it.
        let gone = collect_gone(locals, peers, unresponsive);
        // Redundancy provided by (responsive) remote peers only; each agent's
        // view adds this node's other local agents back in below.
        let base = others_coverage(peers, &gone);
        let visible_peers: u32 = (count_visible(peers, &gone) + locals.len()) as u32;
        let ghost table = self.intents@;
        let ghost listing = self.intents.listing();
        proof {
            self.intents.lemma_listing();
        }
        let mut live = self.intents.live(tick.now);
        // Intent and arc are judged on one consistent view of the peers.
        let declared = collect_declared(peers);
        retain_declared(&mut live, &declared, &own);
        proof {
            lemma_live_ordered(
                listing,
                intents::unexpired(tick.now),
                intents::credible(declared@, own@),
            );
        }
        let mut arcs: Vec<DhtArc> = Vec::new();
        let mut n: usize = 0;
        while n < locals.len()
            invariant
                n <= locals@.len(),
                env.locals == snapshot::local_views(locals@),
                arcs@ == cur_arcs(env.locals).take(n as int),
            decreases locals@.len() - n,
        {
            arcs.push(locals[n].cur_arc);
            n = n + 1;
            assert(arcs@ =~= cur_arcs(env.locals).take(n as int));
        }
        assert(arcs@ =~= cur_arcs(env.locals));
        let ghost start = opening(self.states@, table, self.last_gone@, env);
        self.brake(&own, gone, locals, &mut arcs, &mut effects, Ghost(env));
        proof {
            assert(self.pass(arcs@, effects@) =~= start);
        }
        let mut i: usize = 0;
        while i < locals.len()
            invariant
                i <= locals@.len(),
                self.wf(),
                self.config == old(self).config,
                self.space_id == old(self).space_id,
                self.last_gone@ == env.gone,
                env.live == intents::intent_views(live@),
                visible_peers == visible(env),
                forall|own: Seq<u8>| #[trigger] decide::ordered_ranges(env.live, own, false),
                env == surroundings(
                    old(self).config,
                    old(self).intents.listing(),
                    snapshot::local_views(locals@),
                    coverage::peer_views(peers@),
                    unresponsive@,
                    tick,
                ),
                start == opening(
                    old(self).states@,
                    old(self).intents@,
                    old(self).last_gone@,
                    env,
                ),
                turns_fit(env, start, i as nat),
                arcs@.len() == locals@.len(),
                base@.len() == NUM_SECTORS,
                forall|s: int|
                    0 <= s < NUM_SECTORS ==> #[trigger] base@[s] == coverage::copies(
                        env.peers,
                        env.gone,
                        s,
                    ),
                peers@.len() + locals@.len() <= u32::MAX,
                self.pass(arcs@, effects@) == passed(env, start, i as nat),
            decreases locals@.len() - i,
        {
            let ghost reached = passed(env, start, i as nat);
            assert(self.pass(arcs@, effects@) == reached);
            let fits = self.visit_agent(
                i,
                locals,
                &base,
                &live,
                visible_peers,
                tick,
                &mut arcs,
                &mut effects,
                Ghost(env),
            );
            assert(fits == turn_fits_at(env, start, i as int));
            if !fits {
                assert(self.states@ == reached.states && self.intents@ == reached.intents);
                return None;
            }
            i = i + 1;
        }
        self.forget_departed(&own);
        Some(effects)
    }

    /// One controller tick over all local agents. The result is what is to be
    /// done, in order.
    pub fn check(
        &mut self,
        locals: &[LocalAgent],
        peers: &[PeerInfo],
        unresponsive: &[bool],
        tick: Tick,
    ) -> (effects: Vec<Effect>)
        requires
            old(self).wf(),
            unresponsive@.len() == peers@.len(),
            peers@.len() + locals@.len() <= u32::MAX,
            ({
                let env = surroundings(
                    old(self).config,
                    old(self).intents.listing(),
                    snapshot::local_views(locals@),
                    coverage::peer_views(peers@),
                    unresponsive@,
                    tick,
                );
                turns_fit(
                    env,
                    opening(old(self).states@, old(self).intents@, old(self).last_gone@, env),
                    env.locals.len(),
                )
            }),
        ensures
            final(self).wf(),
            final(self).config == old(self).config,
            final(self).space_id == old(self).space_id,
            locals@.len() == 0 ==> *final(self) == *old(self) && effects@.len() == 0,
            locals@.len() > 0 ==> {
                let env = surroundings(
                    old(self).config,
                    old(self).intents.listing(),
                    snapshot::local_views(locals@),
                    coverage::peer_views(peers@),
                    unresponsive@,
                    tick,
                );
                let end = ticked(
                    old(self).states@,
                    old(self).intents@,
                    old(self).last_gone@,
                    env,
                );
                &&& effect_views(effects@) == end.effects
                &&& final(self).states@ == end.states.restrict(snapshot::own_ids(env.locals))
                &&& final(self).intents@ == end.intents
                &&& final(self).last_gone@ == env.gone
            },
    {
        match self.try_check(locals, peers, unresponsive, tick) {
            Some(effects) => effects,
            None => Vec::new(),
        }
    }
}

/// The intents that are left of a consistent table have their ranges the right
/// way round.
proof fn lemma_live_ordered(
    listing: Seq<(Seq<u8>, ShrinkIntent)>,
    first: spec_fn((Seq<u8>, ShrinkIntent)) -> bool,
    second: spec_fn((Seq<u8>, ShrinkIntent)) -> bool,
)
    requires
        tables::distinct_keys(listing),
        table_wf(tables::as_table(listing)),
    ensures
        forall|own: Seq<u8>| #[trigger]
            decide::ordered_ranges(listing.filter(first).filter(second), own, false),
{
    let some = listing.filter(first);
    let live = some.filter(second);
    assert forall|i: int| 0 <= i < live.len() implies (#[trigger] live[i]).1.vacate.0
        <= live[i].1.vacate.1 by {
        assert(live.contains(live[i]));
        some.lemma_filter_contains_rev(second, live[i]);
        listing.lemma_filter_contains_rev(first, live[i]);
        let j = choose|j: int| 0 <= j < listing.len() && listing[j] == live[i];
        tables::lemma_entry(listing, j);
        assert(tables::as_table(listing).contains_key(listing[j].0));
    }
}

} // verus!
