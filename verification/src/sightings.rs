//! What one tick goes by, over what it is given: which peers are in sight, how
//! many copies of a sector each agent sees, which announcements count, who has
//! departed, and what becomes of each agent.

use crate::blocks;
use crate::config::K2ShardingConfig;
use crate::controller;
use crate::controller::{EffectView, Pass, Surroundings};
use crate::counting;
use crate::coverage;
use crate::coverage::PeerView;
use crate::decide;
use crate::decide::{AgentControl, Claim, IntentChange, Tick};
use crate::decisions;
use crate::decisions::Sight;
use crate::dht_arc;
use crate::dht_arc::DhtArc;
use crate::intents;
use crate::intents::ShrinkIntent;
use crate::network;
use crate::network::NodeTick;
use crate::rules;
use crate::snapshot;
use crate::snapshot::LocalView;
use crate::tables;
use vstd::prelude::*;

verus! {

/// The places of a list.
pub open spec fn places(n: nat) -> Seq<int> {
    Seq::new(n, |i: int| i)
}

/// Whether an agent runs on this node.
pub open spec fn runs_here(locals: Seq<LocalView>, id: Seq<u8>) -> bool {
    exists|i: int| 0 <= i < locals.len() && (#[trigger] locals[i]).agent == id
}

/// Whether the peer at a place has left, or can be addressed and does not
/// respond.
pub open spec fn is_away(peers: Seq<PeerView>, unresponsive: Seq<bool>, i: int) -> bool {
    peers[i].is_tombstone || peers[i].has_url && unresponsive[i]
}

/// Whether some entry of an agent is away.
pub open spec fn went_away(peers: Seq<PeerView>, unresponsive: Seq<bool>, id: Seq<u8>) -> bool {
    exists|i: int|
        0 <= i < peers.len() && (#[trigger] peers[i]).agent == id && is_away(
            peers,
            unresponsive,
            i,
        )
}

/// No two entries are of one agent.
pub open spec fn one_entry_each(peers: Seq<PeerView>) -> bool {
    forall|i: int, j: int|
        0 <= i < j < peers.len() ==> (#[trigger] peers[i]).agent != (#[trigger] peers[j]).agent
}

/// Being the place of a peer in sight: an agent of another node that has neither
/// left nor stopped to respond.
pub open spec fn in_sight(
    locals: Seq<LocalView>,
    peers: Seq<PeerView>,
    unresponsive: Seq<bool>,
) -> spec_fn(int) -> bool {
    |i: int|
        !went_away(peers, unresponsive, peers[i].agent) && !runs_here(locals, peers[i].agent)
}

/// Whether an arc holds every location of a sector.
pub open spec fn holds_all_of(arc: DhtArc, sector: int) -> bool {
    forall|loc: int|
        sector * 0x80_0000 <= loc < (sector + 1) * 0x80_0000 ==> #[trigger] dht_arc::arc_has(
            arc,
            loc,
        )
}

/// Being the place of a peer in sight that declares the whole of a sector.
pub open spec fn in_sight_with(
    locals: Seq<LocalView>,
    peers: Seq<PeerView>,
    unresponsive: Seq<bool>,
    sector: int,
) -> spec_fn(int) -> bool {
    |i: int|
        in_sight(locals, peers, unresponsive)(i) && holds_all_of(peers[i].storage_arc, sector)
}

/// Being the place of another agent of this node that declares the whole of a
/// sector.
pub open spec fn sibling_with(
    locals: Seq<LocalView>,
    arcs: Seq<DhtArc>,
    id: Seq<u8>,
    sector: int,
) -> spec_fn(int) -> bool {
    |j: int| locals[j].agent != id && holds_all_of(arcs[j], sector)
}

/// What a tick is given.
pub struct Given {
    pub cfg: K2ShardingConfig,
    pub listing: Seq<(Seq<u8>, ShrinkIntent)>,
    pub locals: Seq<LocalView>,
    pub peers: Seq<PeerView>,
    pub unresponsive: Seq<bool>,
    pub tick: Tick,
}

impl Given {
    /// What the tick makes of it.
    pub open spec fn env(self) -> Surroundings {
        controller::surroundings(
            self.cfg,
            self.listing,
            self.locals,
            self.peers,
            self.unresponsive,
            self.tick,
        )
    }

    /// How many agents are in sight, those of this node among them.
    pub open spec fn agents_in_sight(self) -> nat {
        places(self.peers.len()).filter(
            in_sight(self.locals, self.peers, self.unresponsive),
        ).len() + self.locals.len()
    }

    /// How many others hold the whole of a sector, as an agent sees it.
    pub open spec fn copies_seen(self, arcs: Seq<DhtArc>, id: Seq<u8>, sector: int) -> nat {
        places(self.peers.len()).filter(
            in_sight_with(self.locals, self.peers, self.unresponsive, sector),
        ).len() + places(self.locals.len()).filter(
            sibling_with(self.locals, arcs, id, sector),
        ).len()
    }
}

proof fn lemma_count_places<T>(list: Seq<T>, has: spec_fn(T) -> bool, at: spec_fn(int) -> bool)
    requires
        forall|i: int| 0 <= i < list.len() ==> has(#[trigger] list[i]) == at(i),
    ensures
        counting::count(list, has) == places(list.len()).filter(at).len(),
    decreases list.len(),
{
    counting::law_count_is_the_length_of_the_filter(places(list.len()), at);
    if list.len() > 0 {
        let shorter = list.drop_last();
        assert forall|i: int| 0 <= i < shorter.len() implies has(#[trigger] shorter[i]) == at(i) by {
            assert(shorter[i] == list[i]);
        }
        lemma_count_places(shorter, has, at);
        counting::law_count_is_the_length_of_the_filter(places(shorter.len()), at);
        assert(places(list.len()).drop_last() =~= places(shorter.len()));
        assert(has(list[list.len() - 1]) == at(list.len() - 1));
    }
}

/// Who counts as gone: the agents of this node, those that have left, and those
/// that can be addressed and do not respond. Nobody else.
pub proof fn law_who_is_gone(given: Given, id: Seq<u8>)
    ensures
        given.env().gone.contains(id) <==> runs_here(given.locals, id) || went_away(
            given.peers,
            given.unresponsive,
            id,
        ),
        snapshot::own_ids(given.locals).contains(id) <==> runs_here(given.locals, id),
{
    if went_away(given.peers, given.unresponsive, id) {
        let i = choose|i: int|
            0 <= i < given.peers.len() && (#[trigger] given.peers[i]).agent == id && is_away(
                given.peers,
                given.unresponsive,
                i,
            );
        assert(snapshot::has_departed(given.peers[i], given.unresponsive[i]));
    }
    if snapshot::is_departed(given.peers, given.unresponsive, id) {
        let i = choose|i: int|
            {
                &&& 0 <= i < given.peers.len()
                &&& (#[trigger] given.peers[i]).agent == id
                &&& snapshot::has_departed(given.peers[i], given.unresponsive[i])
            };
        assert(is_away(given.peers, given.unresponsive, i));
    }
}

/// The rest of what a tick goes by is what it was given.
pub proof fn law_nothing_given_is_changed(given: Given)
    ensures
        given.env().cfg == given.cfg,
        given.env().locals == given.locals,
        given.env().peers == given.peers,
        given.env().tick == given.tick,
{
}

/// The agents in sight are the agents of this node and the peers that have
/// neither left nor stopped to respond.
pub proof fn law_unresponsive_peers_are_out_of_sight(given: Given)
    ensures
        controller::visible(given.env()) == given.agents_in_sight(),
{
    let has = coverage::counted(given.env().gone);
    let at = in_sight(given.locals, given.peers, given.unresponsive);
    assert forall|i: int| 0 <= i < given.peers.len() implies has(#[trigger] given.peers[i]) == at(
        i,
    ) by {
        law_who_is_gone(given, given.peers[i].agent);
        if given.peers[i].is_tombstone {
            assert(is_away(given.peers, given.unresponsive, i));
        }
    }
    lemma_count_places(given.peers, has, at);
}

/// A peer that stops to respond lowers the number of agents in sight by one.
pub proof fn law_one_silent_peer_is_one_less(given: Given, silent: Given, i: int)
    requires
        one_entry_each(given.peers),
        given.unresponsive.len() == given.peers.len(),
        0 <= i < given.peers.len(),
        given.peers[i].has_url,
        !given.peers[i].is_tombstone,
        !given.unresponsive[i],
        !runs_here(given.locals, given.peers[i].agent),
        silent == (Given { unresponsive: given.unresponsive.update(i, true), ..given }),
    ensures
        controller::visible(silent.env()) == controller::visible(given.env()) - 1,
{
    law_unresponsive_peers_are_out_of_sight(given);
    law_unresponsive_peers_are_out_of_sight(silent);
    let before = in_sight(given.locals, given.peers, given.unresponsive);
    let after = in_sight(given.locals, given.peers, silent.unresponsive);
    let all = places(given.peers.len());
    assert forall|j: int| 0 <= j < given.peers.len() implies #[trigger] after(j) == (before(j) && j
        != i) && (j == i ==> before(j)) by {
        lemma_own_entry_decides(given.peers, given.unresponsive, j);
        lemma_own_entry_decides(given.peers, silent.unresponsive, j);
    }
    counting::law_count_is_the_length_of_the_filter(all, before);
    counting::law_count_is_the_length_of_the_filter(all, after);
    counting::lemma_count_remove(all, before, i);
    counting::lemma_count_remove(all, after, i);
    let rest = all.remove(i);
    assert forall|k: int| 0 <= k < rest.len() implies before(#[trigger] rest[k]) == after(
        rest[k],
    ) by {
        assert(after(rest[k]) == (before(rest[k]) && rest[k] != i));
    }
    counting::lemma_count_agree(rest, before, after);
    assert(all[i] == i);
    assert(after(i) == (before(i) && i != i));
}

proof fn lemma_own_entry_decides(peers: Seq<PeerView>, unresponsive: Seq<bool>, i: int)
    requires
        one_entry_each(peers),
        0 <= i < peers.len(),
    ensures
        went_away(peers, unresponsive, peers[i].agent) == is_away(peers, unresponsive, i),
{
    if went_away(peers, unresponsive, peers[i].agent) {
        let j = choose|j: int|
            0 <= j < peers.len() && (#[trigger] peers[j]).agent == peers[i].agent && is_away(
                peers,
                unresponsive,
                j,
            );
        if i < j {
            assert(peers[i].agent != peers[j].agent);
        }
        if j < i {
            assert(peers[j].agent != peers[i].agent);
        }
    }
}

/// What an agent sees of a sector are the peers in sight and the other agents of
/// this node that declare the whole of it.
pub proof fn law_coverage_is_what_others_declare(
    given: Given,
    arcs: Seq<DhtArc>,
    id: Seq<u8>,
    sector: int,
)
    requires
        arcs.len() == given.locals.len(),
        given.peers.len() + given.locals.len() <= u32::MAX,
        0 <= sector < 512,
    ensures
        controller::seen_coverage(given.env(), arcs, id).len() == 512,
        controller::seen_coverage(given.env(), arcs, id)[sector] == given.copies_seen(
            arcs,
            id,
            sector,
        ),
{
    let env = given.env();
    let has = coverage::declares(env.gone, sector);
    let at = in_sight_with(given.locals, given.peers, given.unresponsive, sector);
    assert forall|i: int| 0 <= i < given.peers.len() implies has(#[trigger] given.peers[i]) == at(
        i,
    ) by {
        law_who_is_gone(given, given.peers[i].agent);
        if given.peers[i].is_tombstone {
            assert(is_away(given.peers, given.unresponsive, i));
        }
        assert(blocks::covers(given.peers[i].storage_arc, sector) == holds_all_of(
            given.peers[i].storage_arc,
            sector,
        ));
    }
    lemma_count_places(given.peers, has, at);
    let pairs = controller::held(given.locals, arcs);
    let other = controller::held_by_other(id, sector);
    let sibling = sibling_with(given.locals, arcs, id, sector);
    assert forall|j: int| 0 <= j < pairs.len() implies other(#[trigger] pairs[j]) == sibling(j) by {
        assert(blocks::covers(arcs[j], sector) == holds_all_of(arcs[j], sector));
    }
    lemma_count_places(pairs, other, sibling);
    counting::lemma_count_at_most_len(given.peers, has);
    counting::lemma_count_at_most_len(pairs, other);
}

/// The arc that a live agent declares is that of its last entry.
pub proof fn law_the_last_live_entry_counts(peers: Seq<PeerView>, i: int)
    requires
        0 <= i < peers.len(),
        !peers[i].is_tombstone,
        forall|j: int|
            i < j < peers.len() && !(#[trigger] peers[j]).is_tombstone ==> peers[j].agent
                != peers[i].agent,
    ensures
        snapshot::declared_arcs(peers).contains_key(peers[i].agent),
        snapshot::declared_arcs(peers)[peers[i].agent] == peers[i].storage_arc,
    decreases peers.len(),
{
    if i < peers.len() - 1 {
        let shorter = peers.drop_last();
        assert forall|j: int|
            i < j < shorter.len() && !(#[trigger] shorter[j]).is_tombstone implies shorter[j].agent
            != shorter[i].agent by {
            assert(peers[j].agent != peers[i].agent);
        }
        law_the_last_live_entry_counts(shorter, i);
        assert(peers[peers.len() - 1].is_tombstone || peers[peers.len() - 1].agent
            != peers[i].agent);
    }
}

/// An agent without a live entry declares nothing.
pub proof fn law_no_live_entry_declares_nothing(peers: Seq<PeerView>, id: Seq<u8>)
    requires
        forall|i: int|
            0 <= i < peers.len() && (#[trigger] peers[i]).agent == id ==> peers[i].is_tombstone,
    ensures
        !snapshot::declared_arcs(peers).contains_key(id),
    decreases peers.len(),
{
    if peers.len() > 0 {
        let shorter = peers.drop_last();
        assert forall|i: int|
            0 <= i < shorter.len() && (#[trigger] shorter[i]).agent == id implies shorter[i].is_tombstone by {
            assert(peers[i].agent == id);
        }
        law_no_live_entry_declares_nothing(shorter, id);
        assert(peers[peers.len() - 1].agent == id ==> peers[peers.len() - 1].is_tombstone);
    }
}

/// Whether an announcement is to be acted on: it is not void yet, and its agent
/// runs on this node or declares every sector of it, of which there is one.
pub open spec fn counts_now(given: Given, entry: (Seq<u8>, ShrinkIntent)) -> bool {
    &&& entry.1.expires_at > given.tick.now
    &&& runs_here(given.locals, entry.0) || exists|i: int|
        {
            &&& 0 <= i < given.peers.len()
            &&& !(#[trigger] given.peers[i]).is_tombstone
            &&& given.peers[i].agent == entry.0
            &&& entry.1.vacate.0 < entry.1.vacate.1 <= 512
            &&& forall|s: int|
                entry.1.vacate.0 <= s < entry.1.vacate.1 ==> #[trigger] holds_all_of(
                    given.peers[i].storage_arc,
                    s,
                )
        }
}

/// The announcements that a tick acts on are those of its table that count now,
/// each once.
pub proof fn law_announcements_that_count(given: Given, entry: (Seq<u8>, ShrinkIntent))
    requires
        tables::distinct_keys(given.listing),
        one_entry_each(given.peers),
    ensures
        given.env().live.contains(entry) <==> given.listing.contains(entry) && counts_now(
            given,
            entry,
        ),
        tables::distinct_keys(given.env().live),
{
    let fresh = intents::unexpired(given.tick.now);
    let declared = snapshot::declared_arcs(given.peers);
    let good = intents::credible(declared, snapshot::own_ids(given.locals));
    let some = given.listing.filter(fresh);
    tables::lemma_filter(given.listing, fresh);
    tables::lemma_filter(some, good);
    law_who_is_gone(given, entry.0);
    assert(counts_now(given, entry) == (fresh(entry) && good(entry))) by {
        lemma_counts_now(given, entry);
    }
    if given.listing.contains(entry) && counts_now(given, entry) {
        let i = choose|i: int| 0 <= i < given.listing.len() && given.listing[i] == entry;
        given.listing.lemma_filter_contains(fresh, i);
        let j = choose|j: int| 0 <= j < some.len() && some[j] == entry;
        some.lemma_filter_contains(good, j);
    }
    if given.env().live.contains(entry) {
        let k = choose|k: int| 0 <= k < given.env().live.len() && given.env().live[k] == entry;
        some.lemma_filter_pred(good, k);
        some.lemma_filter_contains_rev(good, entry);
        let j = choose|j: int| 0 <= j < some.len() && some[j] == entry;
        given.listing.lemma_filter_pred(fresh, j);
        given.listing.lemma_filter_contains_rev(fresh, entry);
    }
}

proof fn lemma_counts_now(given: Given, entry: (Seq<u8>, ShrinkIntent))
    requires
        one_entry_each(given.peers),
    ensures
        counts_now(given, entry) == (intents::unexpired(given.tick.now)(entry)
            && intents::credible(
            snapshot::declared_arcs(given.peers),
            snapshot::own_ids(given.locals),
        )(entry)),
{
    let peers = given.peers;
    let declared = snapshot::declared_arcs(peers);
    let id = entry.0;
    law_who_is_gone(given, id);
    assert forall|arc: DhtArc, s: int| #[trigger] blocks::covers(arc, s) == holds_all_of(arc, s) by {
    }
    if exists|i: int|
        0 <= i < peers.len() && !(#[trigger] peers[i]).is_tombstone && peers[i].agent == id {
        let i = choose|i: int|
            0 <= i < peers.len() && !(#[trigger] peers[i]).is_tombstone && peers[i].agent == id;
        assert forall|j: int|
            i < j < peers.len() && !(#[trigger] peers[j]).is_tombstone implies peers[j].agent
            != peers[i].agent by {
            assert(peers[i].agent != peers[j].agent);
        }
        law_the_last_live_entry_counts(peers, i);
        let arc = peers[i].storage_arc;
        if intents::arc_covers_range(arc, entry.1.vacate) {
            assert forall|s: int|
                entry.1.vacate.0 <= s < entry.1.vacate.1 implies #[trigger] holds_all_of(
                arc,
                s,
            ) by {
                assert(blocks::covers(arc, s));
            }
        }
        if counts_now(given, entry) && !runs_here(given.locals, id) {
            let k = choose|k: int|
                {
                    &&& 0 <= k < peers.len()
                    &&& !(#[trigger] peers[k]).is_tombstone
                    &&& peers[k].agent == id
                    &&& entry.1.vacate.0 < entry.1.vacate.1 <= 512
                    &&& forall|s: int|
                        entry.1.vacate.0 <= s < entry.1.vacate.1 ==> #[trigger] holds_all_of(
                            peers[k].storage_arc,
                            s,
                        )
                };
            assert(k == i) by {
                if k < i {
                    assert(peers[k].agent != peers[i].agent);
                }
                if i < k {
                    assert(peers[i].agent != peers[k].agent);
                }
            }
            assert forall|s: int|
                entry.1.vacate.0 <= s < entry.1.vacate.1 implies #[trigger] blocks::covers(
                arc,
                s,
            ) by {
                assert(holds_all_of(arc, s));
            }
        }
    } else {
        law_no_live_entry_declares_nothing(peers, id);
    }
}

/// A tick over what is given, from the states, the table of announcements and
/// the departed agents that were kept since the last one.
pub open spec fn tick_of(
    given: Given,
    states: Map<Seq<u8>, AgentControl>,
    table: Map<Seq<u8>, ShrinkIntent>,
    last_gone: Set<Seq<u8>>,
) -> NodeTick {
    NodeTick { states, table, last_gone, env: given.env() }
}

/// Whether a peer has left or stopped to respond since the last tick.
pub open spec fn someone_departed(given: Given, last_gone: Set<Seq<u8>>) -> bool {
    exists|i: int|
        {
            &&& 0 <= i < given.peers.len()
            &&& is_away(given.peers, given.unresponsive, i)
            &&& !last_gone.contains((#[trigger] given.peers[i]).agent)
            &&& !runs_here(given.locals, given.peers[i].agent)
        }
}

/// Whether an agent has a shrink pending.
pub open spec fn is_pending(states: Map<Seq<u8>, AgentControl>, id: Seq<u8>) -> bool {
    states.contains_key(id) && states[id].pending is Some
}

/// Being the place of an agent of this node with a shrink pending.
pub open spec fn pending_at(
    locals: Seq<LocalView>,
    states: Map<Seq<u8>, AgentControl>,
) -> spec_fn(int) -> bool {
    |i: int| is_pending(states, locals[i].agent)
}

/// The word to an agent that it declares the arc of its level again.
pub open spec fn told_wide(
    locals: Seq<LocalView>,
    states: Map<Seq<u8>, AgentControl>,
) -> spec_fn(int) -> EffectView {
    |i: int|
        EffectView::Tell(
            i,
            Claim::Declare(
                decisions::home_arc(
                    states[locals[i].agent].home as int,
                    states[locals[i].agent].declared_level as int,
                ),
            ),
        )
}

proof fn lemma_departure(given: Given, last_gone: Set<Seq<u8>>)
    ensures
        controller::newly_gone(given.env().gone, last_gone, snapshot::own_ids(given.locals))
            == someone_departed(given, last_gone),
{
    let gone = given.env().gone;
    let own = snapshot::own_ids(given.locals);
    if someone_departed(given, last_gone) {
        let i = choose|i: int|
            {
                &&& 0 <= i < given.peers.len()
                &&& is_away(given.peers, given.unresponsive, i)
                &&& !last_gone.contains((#[trigger] given.peers[i]).agent)
                &&& !runs_here(given.locals, given.peers[i].agent)
            };
        law_who_is_gone(given, given.peers[i].agent);
        assert(gone.contains(given.peers[i].agent));
    }
    if controller::newly_gone(gone, last_gone, own) {
        let id = choose|id: Seq<u8>| #[trigger]
            gone.contains(id) && !last_gone.contains(id) && !own.contains(id);
        law_who_is_gone(given, id);
        let i = choose|i: int|
            0 <= i < given.peers.len() && (#[trigger] given.peers[i]).agent == id && is_away(
                given.peers,
                given.unresponsive,
                i,
            );
        assert(!last_gone.contains(given.peers[i].agent));
    }
}

proof fn lemma_widening(
    locals: Seq<LocalView>,
    states: Map<Seq<u8>, AgentControl>,
    n: nat,
)
    requires
        network::distinct_ids(locals),
        n <= locals.len(),
        forall|id: Seq<u8>| #[trigger] states.contains_key(id) ==> decisions::steady(states[id]),
    ensures
        controller::widening(locals, states, n) == places(n).filter(
            pending_at(locals, states),
        ).map_values(told_wide(locals, states)),
    decreases n,
{
    reveal(Seq::filter);
    let at = pending_at(locals, states);
    let told = told_wide(locals, states);
    if n > 0 {
        let i = n - 1;
        lemma_widening(locals, states, i as nat);
        assert(places(n).drop_last() =~= places(i as nat));
        assert(places(n).last() == i);
        lemma_called_off(locals, states, i);
        let before = places(i as nat).filter(at);
        if at(i) {
            let ctl = states[locals[i].agent];
            decisions::law_blocks_are_around_home(
                ctl.home as int,
                ctl.declared_level as int,
                0,
            );
            assert(before.push(i).map_values(told) =~= before.map_values(told).push(told(i)));
        }
    } else {
        assert(controller::widening(locals, states, n) =~= places(n).filter(at).map_values(told));
    }
}

proof fn lemma_called_off(locals: Seq<LocalView>, states: Map<Seq<u8>, AgentControl>, i: int)
    requires
        network::distinct_ids(locals),
        0 <= i < locals.len(),
    ensures
        controller::called_off(locals, states, i) == is_pending(states, locals[i].agent),
{
    assert forall|j: int| 0 <= j < i implies (#[trigger] locals[j]).agent != locals[i].agent by {}
}

/// The storm brake. Where a peer has left or stopped to respond since the last
/// tick, every pending shrink is called off before anything else, and its
/// announcement is forgotten; under the arc encoding the arc of the level is
/// declared again. Otherwise only announcements that are void are forgotten.
pub proof fn law_departures_call_shrinks_off(
    given: Given,
    states: Map<Seq<u8>, AgentControl>,
    table: Map<Seq<u8>, ShrinkIntent>,
    last_gone: Set<Seq<u8>>,
)
    requires
        network::distinct_ids(given.locals),
        forall|id: Seq<u8>| #[trigger] states.contains_key(id) ==> decisions::steady(states[id]),
    ensures
        ({
            let start = tick_of(given, states, table, last_gone).start();
            let off = someone_departed(given, last_gone);
            let wide = off && given.cfg.agentinfo_encoding;
            &&& forall|id: Seq<u8>| #[trigger]
                start.states.contains_key(id) <==> states.contains_key(id)
            &&& forall|id: Seq<u8>| #[trigger]
                states.contains_key(id) ==> start.states[id] == if off && states[id].pending is Some {
                    AgentControl { pending: None, shrink_acc: 0, ..states[id] }
                } else {
                    states[id]
                }
            &&& forall|id: Seq<u8>| #[trigger]
                start.intents.contains_key(id) <==> table.contains_key(id) && table[id].expires_at
                    > given.tick.now && !(off && is_pending(states, id))
            &&& forall|id: Seq<u8>| #[trigger]
                start.intents.contains_key(id) ==> start.intents[id] == table[id]
            &&& start.arcs.len() == given.locals.len()
            &&& forall|i: int|
                0 <= i < given.locals.len() ==> #[trigger] start.arcs[i] == if wide && is_pending(
                    states,
                    given.locals[i].agent,
                ) {
                    decisions::home_arc(
                        states[given.locals[i].agent].home as int,
                        states[given.locals[i].agent].declared_level as int,
                    )
                } else {
                    given.locals[i].cur_arc
                }
            &&& start.effects == if wide {
                places(given.locals.len()).filter(pending_at(given.locals, states)).map_values(
                    told_wide(given.locals, states),
                )
            } else {
                Seq::empty()
            }
        }),
{
    let t = tick_of(given, states, table, last_gone);
    let start = t.start();
    let first = controller::first_pass(states, table, t.env);
    lemma_departure(given, last_gone);
    assert forall|id: Seq<u8>| #[trigger]
        states.contains_key(id) && someone_departed(given, last_gone) implies start.states[id]
        == controller::calmed()(states[id]) by {
        assert(states.map_values(controller::calmed())[id] == controller::calmed()(states[id]));
    }
    assert forall|i: int| 0 <= i < given.locals.len() implies controller::called_off(
        given.locals,
        states,
        i,
    ) == is_pending(states, (#[trigger] given.locals[i]).agent) && (is_pending(
        states,
        given.locals[i].agent,
    ) ==> controller::wide_arc(states[given.locals[i].agent]) == decisions::home_arc(
        states[given.locals[i].agent].home as int,
        states[given.locals[i].agent].declared_level as int,
    )) by {
        lemma_called_off(given.locals, states, i);
        if is_pending(states, given.locals[i].agent) {
            let ctl = states[given.locals[i].agent];
            decisions::law_blocks_are_around_home(
                ctl.home as int,
                ctl.declared_level as int,
                0,
            );
        }
    }
    lemma_widening(given.locals, states, given.locals.len());
    assert(first.effects + controller::widening(given.locals, states, given.locals.len())
        =~= controller::widening(given.locals, states, given.locals.len()));
}

/// The state of an agent that a tick finds: the one that was kept, or, the first
/// time, that of an agent that aims at everything around the sector of its
/// location.
pub open spec fn found(given: Given, pass: Pass, i: int) -> AgentControl {
    if pass.states.contains_key(given.locals[i].agent) {
        pass.states[given.locals[i].agent]
    } else {
        AgentControl {
            home: (given.locals[i].loc / 0x80_0000) as u32,
            declared_level: 9,
            target_level: 9,
            grow_acc: 0,
            shrink_acc: 0,
            pending: None,
        }
    }
}

/// What the agent at a place decides from in its turn, where the agents of the
/// node declare the given arcs.
pub open spec fn sight_of(given: Given, pass: Pass, arcs: Seq<DhtArc>, i: int) -> Sight {
    Sight {
        cfg: given.cfg,
        id: given.locals[i].agent,
        ctl: found(given, pass, i),
        cur_arc: arcs[i],
        cov: Seq::new(
            512,
            |s: int| given.copies_seen(arcs, given.locals[i].agent, s) as u32,
        ),
        live: given.env().live,
        visible: given.agents_in_sight() as int,
        tick: given.tick,
    }
}

proof fn lemma_sight(given: Given, pass: Pass, i: int)
    requires
        pass.arcs.len() == given.locals.len(),
        given.peers.len() + given.locals.len() <= u32::MAX,
    ensures
        controller::agent_step(given.env(), pass, i) == sight_of(
            given,
            pass,
            pass.arcs,
            i,
        ).step(),
{
    let env = given.env();
    let id = given.locals[i].agent;
    let cov = controller::seen_coverage(env, pass.arcs, id);
    let sight = sight_of(given, pass, pass.arcs, i);
    law_unresponsive_peers_are_out_of_sight(given);
    law_coverage_is_what_others_declare(given, pass.arcs, id, 0);
    assert forall|s: int| 0 <= s < 512 implies cov[s] == sight.cov[s] by {
        law_coverage_is_what_others_declare(given, pass.arcs, id, s);
    }
    assert(cov =~= sight.cov);
    assert(controller::enrolled(env, pass, i).states[id] == sight.ctl);
}

/// One turn: the agent's state is what it decides on what it sees, and so are
/// its announcement and its arc; it is told what it decided, after it was told
/// to aim at everything if it is met for the first time, and what it has to say
/// is sent.
pub proof fn law_a_turn_carries_the_decision_out(given: Given, pass: Pass, i: int)
    requires
        0 <= i < given.locals.len(),
        pass.arcs.len() == given.locals.len(),
        given.peers.len() + given.locals.len() <= u32::MAX,
    ensures
        ({
            let next = controller::visited(given.env(), pass, i);
            let id = given.locals[i].agent;
            let step = sight_of(given, pass, pass.arcs, i).step();
            let met: Seq<EffectView> = if pass.states.contains_key(id) {
                Seq::empty()
            } else {
                seq![EffectView::Tell(i, Claim::Target(DhtArc::Arc(0, u32::MAX)))]
            };
            let told: Seq<EffectView> = match step.claim {
                Some(claim) => seq![EffectView::Tell(i, claim)],
                None => Seq::empty(),
            };
            let sent: Seq<EffectView> = match step.broadcast {
                Some(bytes) => seq![EffectView::Send(bytes)],
                None => Seq::empty(),
            };
            &&& next.states == pass.states.insert(id, step.ctl)
            &&& next.intents == match step.intent {
                IntentChange::Keep => pass.intents,
                IntentChange::Forget => pass.intents.remove(id),
                IntentChange::Announce(intent) => pass.intents.insert(id, intent),
            }
            &&& next.arcs == match step.claim {
                Some(Claim::Declare(arc)) => pass.arcs.update(i, arc),
                _ => pass.arcs,
            }
            &&& next.effects == pass.effects + met + told + sent
        }),
{
    lemma_sight(given, pass, i);
    let next = controller::visited(given.env(), pass, i);
    let id = given.locals[i].agent;
    let step = sight_of(given, pass, pass.arcs, i).step();
    let met: Seq<EffectView> = if pass.states.contains_key(id) {
        Seq::empty()
    } else {
        seq![EffectView::Tell(i, Claim::Target(DhtArc::Arc(0, u32::MAX)))]
    };
    let told: Seq<EffectView> = match step.claim {
        Some(claim) => seq![EffectView::Tell(i, claim)],
        None => Seq::empty(),
    };
    let sent: Seq<EffectView> = match step.broadcast {
        Some(bytes) => seq![EffectView::Send(bytes)],
        None => Seq::empty(),
    };
    assert(next.states =~= pass.states.insert(id, step.ctl));
    assert(next.effects =~= pass.effects + met + told + sent);
}

/// A tick is the turns of all agents in order, after the storm brake.
pub proof fn law_a_tick_is_its_turns(t: NodeTick, n: nat)
    ensures
        t.end() == controller::passed(t.env, t.start(), t.env.locals.len()),
        controller::passed(t.env, t.start(), 0) == t.start(),
        controller::passed(t.env, t.start(), n + 1) == controller::visited(
            t.env,
            controller::passed(t.env, t.start(), n),
            n as int,
        ),
{
}

/// The arcs that the agents of a node declare at the turn of the agent at a
/// place: those before it as the tick leaves them, the others as it finds them
/// after the storm brake.
pub open spec fn arcs_at(t: NodeTick, i: int) -> Seq<DhtArc> {
    Seq::new(
        t.env.locals.len(),
        |j: int|
            if j < i {
                t.end().arcs[j]
            } else {
                t.start().arcs[j]
            },
    )
}

proof fn lemma_intents(env: Surroundings, start: Pass, n: nat, id: Seq<u8>)
    requires
        n <= env.locals.len(),
        forall|j: int| 0 <= j < n ==> (#[trigger] env.locals[j]).agent != id,
    ensures
        controller::passed(env, start, n).intents.contains_key(id) == start.intents.contains_key(
            id,
        ),
        controller::passed(env, start, n).intents[id] == start.intents[id],
        controller::passed(env, start, n).states.contains_key(id) == start.states.contains_key(id),
        controller::passed(env, start, n).states[id] == start.states[id],
    decreases n,
{
    if n > 0 {
        lemma_intents(env, start, (n - 1) as nat, id);
        assert(env.locals[n - 1].agent != id);
    }
}

proof fn lemma_own_intent(env: Surroundings, start: Pass, n: nat, i: int)
    requires
        network::distinct_ids(env.locals),
        0 <= i < n <= env.locals.len(),
    ensures
        ({
            let pass = controller::passed(env, start, i as nat);
            let after = controller::passed(env, start, n);
            let id = env.locals[i].agent;
            let listed = after.intents.contains_key(id);
            match controller::agent_step(env, pass, i).intent {
                IntentChange::Keep => listed == start.intents.contains_key(id) && after.intents[id]
                    == start.intents[id],
                IntentChange::Forget => !listed,
                IntentChange::Announce(intent) => listed && after.intents[id] == intent,
            }
        }),
    decreases n,
{
    let id = env.locals[i].agent;
    if i < n - 1 {
        lemma_own_intent(env, start, (n - 1) as nat, i);
        assert(env.locals[i].agent != env.locals[n - 1].agent);
    } else {
        assert forall|j: int| 0 <= j < i implies (#[trigger] env.locals[j]).agent != id by {}
        lemma_intents(env, start, i as nat, id);
    }
}

/// Each agent of the node has one turn in a tick, on what it sees at that time;
/// what it decides is what the tick makes of it.
pub proof fn law_each_agent_has_its_turn(
    given: Given,
    states: Map<Seq<u8>, AgentControl>,
    table: Map<Seq<u8>, ShrinkIntent>,
    last_gone: Set<Seq<u8>>,
    i: int,
)
    requires
        network::distinct_ids(given.locals),
        given.peers.len() + given.locals.len() <= u32::MAX,
        0 <= i < given.locals.len(),
    ensures
        ({
            let t = tick_of(given, states, table, last_gone);
            let id = given.locals[i].agent;
            let step = sight_of(given, t.start(), arcs_at(t, i), i).step();
            &&& t.end().states.contains_key(id)
            &&& t.end().states[id] == step.ctl
            &&& t.end().arcs.len() == given.locals.len()
            &&& t.end().arcs[i] == match step.claim {
                Some(Claim::Declare(arc)) => arc,
                _ => t.start().arcs[i],
            }
            &&& match step.intent {
                IntentChange::Keep => t.end().intents.contains_key(id)
                    == t.start().intents.contains_key(id) && t.end().intents[id]
                    == t.start().intents[id],
                IntentChange::Forget => !t.end().intents.contains_key(id),
                IntentChange::Announce(intent) => t.end().intents.contains_key(id)
                    && t.end().intents[id] == intent,
            }
            &&& step.claim matches Some(claim) ==> t.end().effects.contains(
                EffectView::Tell(i, claim),
            )
            &&& step.broadcast matches Some(bytes) ==> t.end().effects.contains(
                EffectView::Send(bytes),
            )
            &&& !t.start().states.contains_key(id) ==> t.end().effects.contains(
                EffectView::Tell(i, Claim::Target(DhtArc::Arc(0, u32::MAX))),
            )
        }),
{
    let t = tick_of(given, states, table, last_gone);
    let env = given.env();
    let start = t.start();
    let n = env.locals.len();
    assert(start.arcs.len() == n);
    let pass = controller::passed(env, start, i as nat);
    network::lemma_before_turn(env, start, i as nat, i);
    network::lemma_turn(env, start, n, i);
    network::lemma_arcs_len(env, start, i as nat);
    assert forall|j: int| 0 <= j < n implies pass.arcs[j] == arcs_at(t, i)[j] by {
        if j < i {
            network::lemma_turn(env, start, i as nat, j);
            network::lemma_turn(env, start, n, j);
        } else {
            network::lemma_before_turn(env, start, i as nat, j);
        }
    }
    assert(pass.arcs =~= arcs_at(t, i));
    lemma_sight(given, pass, i);
    assert(found(given, pass, i) == found(given, start, i));
    assert(sight_of(given, pass, pass.arcs, i) == sight_of(given, start, arcs_at(t, i), i));
    lemma_own_intent(env, start, n, i);
    law_a_turn_carries_the_decision_out(given, pass, i);
    let step = controller::agent_step(env, pass, i);
    let next = controller::passed(env, start, (i + 1) as nat);
    assert(next == controller::visited(env, pass, i));
    lemma_effects_stay(env, start, (i + 1) as nat, n);
    if let Some(claim) = step.claim {
        lemma_last_effects(next.effects, pass.effects, EffectView::Tell(i, claim), step, i);
        assert(next.effects.contains(EffectView::Tell(i, claim)));
    }
    if let Some(bytes) = step.broadcast {
        assert(next.effects[next.effects.len() - 1] == EffectView::Send(bytes));
        assert(next.effects.contains(EffectView::Send(bytes)));
    }
    if !start.states.contains_key(env.locals[i].agent) {
        let met = EffectView::Tell(i, Claim::Target(DhtArc::Arc(0, u32::MAX)));
        assert(next.effects[pass.effects.len() as int] == met);
        assert(next.effects.contains(met));
    }
}

proof fn lemma_last_effects(
    all: Seq<EffectView>,
    before: Seq<EffectView>,
    told: EffectView,
    step: decide::StepView,
    i: int,
)
    requires
        step.claim matches Some(claim) && told == EffectView::Tell(i, claim),
        exists|met: Seq<EffectView>|
            all == #[trigger] (before + met) + seq![told] + match step.broadcast {
                Some(bytes) => seq![EffectView::Send(bytes)],
                None => Seq::<EffectView>::empty(),
            },
    ensures
        all.contains(told),
{
    let met = choose|met: Seq<EffectView>|
        all == #[trigger] (before + met) + seq![told] + match step.broadcast {
            Some(bytes) => seq![EffectView::Send(bytes)],
            None => Seq::<EffectView>::empty(),
        };
    assert(all[(before + met).len() as int] == told);
}

proof fn lemma_effects_stay(env: Surroundings, start: Pass, m: nat, n: nat)
    requires
        m <= n,
    ensures
        forall|e: EffectView| #[trigger]
            controller::passed(env, start, m).effects.contains(e) ==> controller::passed(
                env,
                start,
                n,
            ).effects.contains(e),
    decreases n,
{
    if m < n {
        lemma_effects_stay(env, start, m, (n - 1) as nat);
        let before = controller::passed(env, start, (n - 1) as nat).effects;
        let after = controller::passed(env, start, n).effects;
        assert forall|e: EffectView| before.contains(e) implies #[trigger] after.contains(e) by {
            let k = choose|k: int| 0 <= k < before.len() && before[k] == e;
            assert(after[k] == e);
        }
    }
}

/// A tick does not touch what was announced by agents of other nodes, but for
/// what is void.
pub proof fn law_announcements_of_others_stay(
    given: Given,
    states: Map<Seq<u8>, AgentControl>,
    table: Map<Seq<u8>, ShrinkIntent>,
    last_gone: Set<Seq<u8>>,
    id: Seq<u8>,
)
    requires
        network::distinct_ids(given.locals),
        forall|k: Seq<u8>| #[trigger] states.contains_key(k) ==> decisions::steady(states[k]),
        !runs_here(given.locals, id),
        !states.contains_key(id),
    ensures
        ({
            let end = tick_of(given, states, table, last_gone).end();
            &&& end.intents.contains_key(id) <==> table.contains_key(id) && table[id].expires_at
                > given.tick.now
            &&& end.intents.contains_key(id) ==> end.intents[id] == table[id]
            &&& !end.states.contains_key(id)
        }),
{
    let t = tick_of(given, states, table, last_gone);
    law_departures_call_shrinks_off(given, states, table, last_gone);
    assert forall|j: int| 0 <= j < given.locals.len() implies (#[trigger] given.locals[j]).agent
        != id by {}
    lemma_intents(t.env, t.start(), given.locals.len(), id);
    assert(t.start().intents.contains_key(id) == (table.contains_key(id) && table[id].expires_at
        > given.tick.now));
    assert(t.start().states.contains_key(id) == states.contains_key(id));
}

/// An agent's state before a tick, or that of an agent that is met for the first
/// time.
pub open spec fn state_before(
    given: Given,
    states: Map<Seq<u8>, AgentControl>,
    i: int,
) -> AgentControl {
    if states.contains_key(given.locals[i].agent) {
        states[given.locals[i].agent]
    } else {
        AgentControl {
            home: (given.locals[i].loc / 0x80_0000) as u32,
            declared_level: 9,
            target_level: 9,
            grow_acc: 0,
            shrink_acc: 0,
            pending: None,
        }
    }
}

proof fn lemma_found_steady(
    given: Given,
    states: Map<Seq<u8>, AgentControl>,
    table: Map<Seq<u8>, ShrinkIntent>,
    last_gone: Set<Seq<u8>>,
    i: int,
)
    requires
        network::distinct_ids(given.locals),
        forall|k: Seq<u8>| #[trigger] states.contains_key(k) ==> decisions::steady(states[k]),
        0 <= i < given.locals.len(),
    ensures
        ({
            let t = tick_of(given, states, table, last_gone);
            let ctl = found(given, t.start(), i);
            let before = state_before(given, states, i);
            &&& decisions::steady(ctl)
            &&& ctl.wf()
            &&& ctl.home == before.home
            &&& ctl.target_level == before.target_level
            &&& ctl.declared_level == before.declared_level
            &&& ctl.pending is Some ==> ctl == before
            &&& someone_departed(given, last_gone) ==> ctl.pending is None
            &&& !someone_departed(given, last_gone) ==> ctl == before
        }),
{
    let t = tick_of(given, states, table, last_gone);
    law_departures_call_shrinks_off(given, states, table, last_gone);
    let id = given.locals[i].agent;
    assert(t.start().states.contains_key(id) == states.contains_key(id));
    decisions::law_states_make_sense(found(given, t.start(), i));
}

/// Small networks do not shard. A tick in which fewer agents than the clamp are
/// in sight, peers that have left or stopped to respond not among them,
/// announces no shrink and carries none out: nothing is sent, no agent has a
/// shrink pending that it had not, and none has a lower level than before.
pub proof fn law_ticks_of_small_networks_shrink_nothing(
    given: Given,
    states: Map<Seq<u8>, AgentControl>,
    table: Map<Seq<u8>, ShrinkIntent>,
    last_gone: Set<Seq<u8>>,
    i: int,
)
    requires
        network::distinct_ids(given.locals),
        given.peers.len() + given.locals.len() <= u32::MAX,
        forall|k: Seq<u8>| #[trigger] states.contains_key(k) ==> decisions::steady(states[k]),
        0 <= i < given.locals.len(),
        given.agents_in_sight() < given.cfg.clamp_min_peers,
    ensures
        ({
            let end = tick_of(given, states, table, last_gone).end();
            let before = state_before(given, states, i);
            let after = end.states[given.locals[i].agent];
            &&& after.pending is Some ==> after.pending == before.pending
            &&& after.declared_level >= before.declared_level
            &&& after.target_level >= before.target_level
            &&& forall|k: int| 0 <= k < end.effects.len() ==> !(#[trigger] end.effects[k] is Send)
        }),
{
    let t = tick_of(given, states, table, last_gone);
    let sight = sight_of(given, t.start(), arcs_at(t, i), i);
    law_each_agent_has_its_turn(given, states, table, last_gone, i);
    lemma_found_steady(given, states, table, last_gone, i);
    rules::law_small_networks_do_not_shard(
        sight.cfg,
        sight.id,
        sight.ctl,
        sight.cur_arc,
        sight.cov,
        sight.live,
        sight.visible,
        sight.tick,
    );
    law_departures_call_shrinks_off(given, states, table, last_gone);
    let start = t.start();
    assert forall|k: int| 0 <= k < start.effects.len() implies !(#[trigger] start.effects[k] is Send) by {
        assert(start.effects[k] == told_wide(given.locals, states)(
            places(given.locals.len()).filter(pending_at(given.locals, states))[k],
        ));
    }
    law_unresponsive_peers_are_out_of_sight(given);
    assert forall|j: int| 0 <= j < given.locals.len() implies (#[trigger] network::met(
        t.env,
        start,
        j,
    )).wf() by {
        lemma_found_steady(given, states, table, last_gone, j);
        assert(network::met(t.env, start, j) == found(given, start, j));
    }
    lemma_nothing_sent(t.env, start, given.locals.len());
}

proof fn lemma_nothing_sent(env: Surroundings, start: Pass, n: nat)
    requires
        network::distinct_ids(env.locals),
        start.arcs.len() == env.locals.len(),
        n <= env.locals.len(),
        controller::visible(env) < env.cfg.clamp_min_peers,
        forall|j: int|
            0 <= j < env.locals.len() ==> (#[trigger] network::met(env, start, j)).wf(),
        forall|k: int| 0 <= k < start.effects.len() ==> !(#[trigger] start.effects[k] is Send),
    ensures
        forall|k: int|
            0 <= k < controller::passed(env, start, n).effects.len() ==> !(#[trigger]
            controller::passed(env, start, n).effects[k] is Send),
    decreases n,
{
    if n > 0 {
        let i = n - 1;
        lemma_nothing_sent(env, start, i as nat);
        network::lemma_turn(env, start, n, i);
        let pass = controller::passed(env, start, i as nat);
        let id = env.locals[i].agent;
        assert(network::met(env, start, i).wf());
        rules::law_small_networks_do_not_shard(
            env.cfg,
            id,
            network::met(env, start, i),
            start.arcs[i],
            controller::seen_coverage(env, pass.arcs, id),
            env.live,
            controller::visible(env),
            env.tick,
        );
        assert(controller::agent_step(env, pass, i).broadcast is None);
    }
}

/// After a departure nothing is carried out that was announced before: no agent
/// has a lower level after the tick, and a shrink that is pending after it was
/// announced in it.
pub proof fn law_nothing_is_given_up_after_a_departure(
    given: Given,
    states: Map<Seq<u8>, AgentControl>,
    table: Map<Seq<u8>, ShrinkIntent>,
    last_gone: Set<Seq<u8>>,
    i: int,
)
    requires
        network::distinct_ids(given.locals),
        given.peers.len() + given.locals.len() <= u32::MAX,
        forall|k: Seq<u8>| #[trigger] states.contains_key(k) ==> decisions::steady(states[k]),
        0 <= i < given.locals.len(),
        someone_departed(given, last_gone),
    ensures
        ({
            let t = tick_of(given, states, table, last_gone);
            let before = state_before(given, states, i);
            let after = t.end().states[given.locals[i].agent];
            &&& after.target_level >= before.target_level
            &&& after.declared_level >= before.declared_level
            &&& before.pending is Some && after.pending is None
                ==> !t.end().intents.contains_key(given.locals[i].agent)
        }),
{
    let t = tick_of(given, states, table, last_gone);
    let id = given.locals[i].agent;
    law_each_agent_has_its_turn(given, states, table, last_gone, i);
    lemma_found_steady(given, states, table, last_gone, i);
    law_departures_call_shrinks_off(given, states, table, last_gone);
    assert(t.start().intents.contains_key(id) ==> !is_pending(states, id));
}

/// Where nobody departs, a shrink that waits for its time keeps waiting.
pub proof fn law_pending_shrinks_wait(
    given: Given,
    states: Map<Seq<u8>, AgentControl>,
    table: Map<Seq<u8>, ShrinkIntent>,
    last_gone: Set<Seq<u8>>,
    i: int,
)
    requires
        network::distinct_ids(given.locals),
        given.peers.len() + given.locals.len() <= u32::MAX,
        forall|k: Seq<u8>| #[trigger] states.contains_key(k) ==> decisions::steady(states[k]),
        0 <= i < given.locals.len(),
        !someone_departed(given, last_gone),
        is_pending(states, given.locals[i].agent),
        given.tick.now < states[given.locals[i].agent].pending->0.execute_at,
    ensures
        ({
            let t = tick_of(given, states, table, last_gone);
            let id = given.locals[i].agent;
            &&& t.end().states[id] == states[id]
            &&& t.end().arcs[i] == given.locals[i].cur_arc
            &&& table.contains_key(id) && table[id].expires_at > given.tick.now
                ==> t.end().intents.contains_key(id) && t.end().intents[id] == table[id]
        }),
{
    let t = tick_of(given, states, table, last_gone);
    let id = given.locals[i].agent;
    law_each_agent_has_its_turn(given, states, table, last_gone, i);
    lemma_found_steady(given, states, table, last_gone, i);
    law_departures_call_shrinks_off(given, states, table, last_gone);
    decisions::law_waiting_agents_do_nothing(sight_of(given, t.start(), arcs_at(t, i), i));
    assert(t.start().arcs[i] == given.locals[i].cur_arc);
    assert(table.contains_key(id) && table[id].expires_at > given.tick.now
        ==> t.start().intents.contains_key(id));
}

/// Whether the agents that are known have the sector of their location as home.
pub open spec fn at_home(locals: Seq<LocalView>, states: Map<Seq<u8>, AgentControl>) -> bool {
    forall|i: int|
        0 <= i < locals.len() && states.contains_key((#[trigger] locals[i]).agent)
            ==> states[locals[i].agent].home == locals[i].loc / 0x80_0000
}

/// The arc that a claim is about.
pub open spec fn arc_of_claim(claim: Claim) -> DhtArc {
    match claim {
        Claim::Target(arc) => arc,
        Claim::Declare(arc) => arc,
    }
}

/// Agents stay at home. An agent that is met for the first time has the sector
/// of its location as home, and one that is known keeps its home; and every arc
/// that a tick tells an agent about holds the agent's location.
pub proof fn law_agents_stay_at_home(
    given: Given,
    states: Map<Seq<u8>, AgentControl>,
    table: Map<Seq<u8>, ShrinkIntent>,
    last_gone: Set<Seq<u8>>,
)
    requires
        network::distinct_ids(given.locals),
        given.peers.len() + given.locals.len() <= u32::MAX,
        forall|k: Seq<u8>| #[trigger] states.contains_key(k) ==> decisions::steady(states[k]),
        at_home(given.locals, states),
    ensures
        ({
            let end = tick_of(given, states, table, last_gone).end();
            &&& forall|i: int|
                0 <= i < given.locals.len() ==> {
                    let id = (#[trigger] given.locals[i]).agent;
                    &&& end.states.contains_key(id)
                    &&& end.states[id].home == given.locals[i].loc / 0x80_0000
                    &&& decisions::steady(end.states[id])
                }
            &&& forall|k: int|
                0 <= k < end.effects.len() ==> (#[trigger] end.effects[k] matches EffectView::Tell(
                    i,
                    claim,
                ) ==> 0 <= i < given.locals.len() && dht_arc::arc_has(
                    arc_of_claim(claim),
                    given.locals[i].loc as int,
                ))
        }),
{
    let t = tick_of(given, states, table, last_gone);
    let start = t.start();
    law_departures_call_shrinks_off(given, states, table, last_gone);
    assert forall|i: int| 0 <= i < given.locals.len() implies ({
        let id = (#[trigger] given.locals[i]).agent;
        &&& t.end().states.contains_key(id)
        &&& t.end().states[id].home == given.locals[i].loc / 0x80_0000
        &&& decisions::steady(t.end().states[id])
    }) by {
        let sight = sight_of(given, start, arcs_at(t, i), i);
        law_each_agent_has_its_turn(given, states, table, last_gone, i);
        lemma_found_steady(given, states, table, last_gone, i);
        rules::law_levels_move_by_one(
            sight.cfg,
            sight.id,
            sight.ctl,
            sight.cur_arc,
            sight.cov,
            sight.live,
            sight.visible,
            sight.tick,
        );
        decisions::law_states_make_sense(sight.step().ctl);
    }
    assert forall|j: int| 0 <= j < given.locals.len() implies ({
        let ctl = #[trigger] network::met(t.env, start, j);
        ctl.wf() && ctl.home == given.locals[j].loc / 0x80_0000
    }) by {
        lemma_found_steady(given, states, table, last_gone, j);
        assert(network::met(t.env, start, j) == found(given, start, j));
        assert(given.locals[j].agent == given.locals[j].agent);
    }
    assert forall|k: int| 0 <= k < start.effects.len() implies #[trigger] is_near(
        given.locals,
        start.effects[k],
    ) by {
        let at = pending_at(given.locals, states);
        let list = places(given.locals.len()).filter(at);
        places(given.locals.len()).lemma_filter_pred(at, k);
        assert(list.contains(list[k]));
        places(given.locals.len()).lemma_filter_contains_rev(at, list[k]);
        let i = list[k];
        assert(start.effects[k] == told_wide(given.locals, states)(i));
        let ctl = states[given.locals[i].agent];
        assert(states.contains_key(given.locals[i].agent));
        lemma_home_arc(given.locals[i].loc, ctl.declared_level as int);
    }
    lemma_told_near(t.env, start, given.locals.len());
    assert forall|k: int| 0 <= k < t.end().effects.len() implies (
    #[trigger] t.end().effects[k] matches EffectView::Tell(i, claim) ==> 0 <= i
        < given.locals.len() && dht_arc::arc_has(
        arc_of_claim(claim),
        given.locals[i].loc as int,
    )) by {
        assert(is_near(given.locals, t.end().effects[k]));
    }
}

/// What an agent is told holds its location.
spec fn is_near(locals: Seq<LocalView>, effect: EffectView) -> bool {
    effect matches EffectView::Tell(i, claim) ==> 0 <= i < locals.len() && dht_arc::arc_has(
        arc_of_claim(claim),
        locals[i].loc as int,
    )
}

proof fn lemma_home_arc(loc: u32, level: int)
    requires
        0 <= level <= 9,
    ensures
        dht_arc::arc_has(decisions::home_arc(loc as int / 0x80_0000, level), loc as int),
        dht_arc::arc_has(
            blocks::block_arc_at(loc as int / 0x80_0000, level),
            loc as int,
        ),
{
    decisions::law_blocks_are_around_home(loc as int / 0x80_0000, level, 0);
    blocks::law_block_arc_holds_home(loc, level);
}

proof fn lemma_told_near(env: Surroundings, start: Pass, n: nat)
    requires
        network::distinct_ids(env.locals),
        start.arcs.len() == env.locals.len(),
        n <= env.locals.len(),
        forall|j: int|
            0 <= j < env.locals.len() ==> ({
                let ctl = #[trigger] network::met(env, start, j);
                ctl.wf() && ctl.home == env.locals[j].loc / 0x80_0000
            }),
        forall|k: int|
            0 <= k < start.effects.len() ==> #[trigger] is_near(env.locals, start.effects[k]),
    ensures
        forall|k: int|
            0 <= k < controller::passed(env, start, n).effects.len() ==> #[trigger] is_near(
                env.locals,
                controller::passed(env, start, n).effects[k],
            ),
    decreases n,
{
    if n > 0 {
        let i = n - 1;
        lemma_told_near(env, start, i as nat);
        network::lemma_turn(env, start, n, i);
        let pass = controller::passed(env, start, i as nat);
        let after = controller::passed(env, start, n);
        let step = controller::agent_step(env, pass, i);
        let ctl = network::met(env, start, i);
        assert(ctl.wf());
        lemma_home_arc(env.locals[i].loc, ctl.declared_level as int);
        lemma_home_arc(env.locals[i].loc, ctl.target_level as int);
        if ctl.declared_level > 0 {
            lemma_home_arc(env.locals[i].loc, ctl.declared_level - 1);
        }
        if ctl.target_level > 0 {
            lemma_home_arc(env.locals[i].loc, ctl.target_level - 1);
        }
        if ctl.target_level < 9 {
            lemma_home_arc(env.locals[i].loc, ctl.target_level + 1);
        }
        assert(step.claim matches Some(claim) ==> dht_arc::arc_has(
            arc_of_claim(claim),
            env.locals[i].loc as int,
        ));
        assert forall|k: int| 0 <= k < after.effects.len() implies #[trigger] is_near(
            env.locals,
            after.effects[k],
        ) by {
            if k < pass.effects.len() {
                assert(after.effects[k] == pass.effects[k]);
                assert(is_near(env.locals, pass.effects[k]));
            }
        }
    }
}

/// A tick over ordinary times goes through: where no agent's conditions have
/// held for some hundred billion years, and twice the wait of an announcement
/// does not reach the end of time.
pub proof fn law_ordinary_ticks_go_through(
    given: Given,
    states: Map<Seq<u8>, AgentControl>,
    table: Map<Seq<u8>, ShrinkIntent>,
    last_gone: Set<Seq<u8>>,
)
    requires
        network::distinct_ids(given.locals),
        forall|k: Seq<u8>| #[trigger] states.contains_key(k) ==> decisions::steady(states[k]),
        forall|k: Seq<u8>| #[trigger]
            states.contains_key(k) ==> states[k].grow_acc + given.tick.elapsed
                <= 18_446_744_073_709_551_615_999_999_999 && states[k].shrink_acc
                + given.tick.elapsed <= 18_446_744_073_709_551_615_999_999_999,
        given.tick.elapsed <= 18_446_744_073_709_551_615_999_999_999,
        given.tick.now + 2 * (given.tick.intent_wait / 1000) <= i64::MAX,
        given.tick.now + 2 * (given.cfg.intent_min_wait_ms * 1000) <= i64::MAX,
        given.tick.intent_wait / 1000 <= i64::MAX,
    ensures
        controller::turns_fit(
            given.env(),
            tick_of(given, states, table, last_gone).start(),
            given.locals.len(),
        ),
{
    let t = tick_of(given, states, table, last_gone);
    let env = given.env();
    let start = t.start();
    law_departures_call_shrinks_off(given, states, table, last_gone);
    assert forall|i: int| 0 <= i < given.locals.len() implies #[trigger] controller::turn_fits_at(
        env,
        start,
        i,
    ) by {
        let pass = controller::passed(env, start, i as nat);
        let id = env.locals[i].agent;
        network::lemma_before_turn(env, start, i as nat, i);
        lemma_found_steady(given, states, table, last_gone, i);
        assert(start.states.contains_key(id) == states.contains_key(id));
        let sight = Sight {
            cfg: env.cfg,
            id,
            ctl: found(given, start, i),
            cur_arc: pass.arcs[i],
            cov: controller::seen_coverage(env, pass.arcs, id),
            live: env.live,
            visible: controller::visible(env),
            tick: env.tick,
        };
        decisions::law_ordinary_times_fit(sight);
        assert(controller::enrolled(env, pass, i).states[id] == sight.ctl);
    }
}

} // verus!
