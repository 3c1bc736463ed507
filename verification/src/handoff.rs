//! What the polite handoff guarantees when several agents shrink at once.

use crate::blocks;
use crate::config::K2ShardingConfig;
use crate::counting;
use crate::decide;
use crate::decide::{AgentControl, Tick};
use crate::dht_arc::DhtArc;
use crate::ids;
use crate::intents::ShrinkIntent;
use crate::rules;
use vstd::prelude::*;

verus! {

/// Whether an agent announces in a list that it leaves a sector.
pub open spec fn announces(live: Seq<(Seq<u8>, ShrinkIntent)>, id: Seq<u8>, sector: int) -> bool {
    exists|i: int|
        0 <= i < live.len() && (#[trigger] live[i]).0 == id && blocks::in_range(
            live[i].1.vacate,
            sector,
        )
}

/// Of finitely many agents one is outranked by all others.
proof fn lemma_last_exists(agents: Set<Seq<u8>>) -> (last: Seq<u8>)
    requires
        agents.finite(),
        agents.len() > 0,
    ensures
        agents.contains(last),
        forall|id: Seq<u8>| #[trigger] agents.contains(id) ==> id == last || ids::lex_lt(id, last),
    decreases agents.len(),
{
    let one = agents.choose();
    if agents.len() == 1 {
        assert forall|id: Seq<u8>| #[trigger] agents.contains(id) implies id == one by {
            if id != one {
                assert(agents.remove(one).contains(id));
                assert(agents.remove(one).len() == 0);
                agents.remove(one).lemma_len0_is_empty();
            }
        }
        one
    } else {
        let rest = agents.remove(one);
        let last = lemma_last_exists(rest);
        ids::law_order_is_total(one, last);
        if ids::lex_lt(last, one) {
            assert forall|id: Seq<u8>| #[trigger] agents.contains(id) implies id == one
                || ids::lex_lt(id, one) by {
                if id != one {
                    assert(rest.contains(id));
                    if id != last {
                        ids::law_order_is_transitive(id, last, one);
                    }
                }
            }
            one
        } else {
            assert forall|id: Seq<u8>| #[trigger] agents.contains(id) implies id == last
                || ids::lex_lt(id, last) by {
                if id != one {
                    assert(rest.contains(id));
                }
            }
            last
        }
    }
}

/// Concurrent shrinks cannot orphan a sector. Let any number of the holders of
/// a sector vacate it at once, each after its own re-check on a view that counts
/// no more than the others as holders and in which every outranking one among
/// them has announced its intent. Then at least the target number of holders
/// stays.
pub proof fn law_concurrent_shrinks_keep_the_target(
    holders: Set<Seq<u8>>,
    going: Set<Seq<u8>>,
    cov: Map<Seq<u8>, Seq<u32>>,
    live: Map<Seq<u8>, Seq<(Seq<u8>, ShrinkIntent)>>,
    vacate: Map<Seq<u8>, (u32, u32)>,
    sector: int,
    target: u32,
)
    requires
        holders.finite(),
        going.subset_of(holders),
        going.len() > 0,
        forall|id: Seq<u8>| #[trigger]
            going.contains(id) ==> {
                &&& blocks::in_range(vacate[id], sector)
                &&& cov[id][sector] <= holders.len() - 1
                &&& decide::may_shrink(cov[id], live[id], id, vacate[id], target)
            },
        forall|id: Seq<u8>, first: Seq<u8>|
            going.contains(id) && going.contains(first) && #[trigger] ids::lex_lt(first, id)
                ==> announces(live[id], first, sector),
    ensures
        holders.difference(going).len() >= target,
{
    vstd::set_lib::lemma_set_subset_finite(holders, going);
    let last = lemma_last_exists(going);
    let outranking = going.remove(last);
    let leaves = decide::leaving(last, true, sector);
    assert forall|id: Seq<u8>| #[trigger] outranking.contains(id) implies exists|i: int|
        0 <= i < live[last].len() && (#[trigger] live[last][i]).0 == id && leaves(
            live[last][i],
        ) by {
        assert(going.contains(id));
        assert(ids::lex_lt(id, last));
        assert(announces(live[last], id, sector));
        let i = choose|i: int|
            0 <= i < live[last].len() && (#[trigger] live[last][i]).0 == id && blocks::in_range(
                live[last][i].1.vacate,
                sector,
            );
        assert(leaves(live[last][i]));
    }
    counting::lemma_count_keys(live[last], leaves, outranking);
    assert(going.contains(last));
    assert(decide::copies_left(cov[last], live[last], last, true, sector) >= target);
    assert(holders.intersect(going) =~= going);
    vstd::set_lib::lemma_set_difference_len(holders, going);
    vstd::set_lib::lemma_len_subset(going, holders);
    assert(going.difference(holders) =~= Set::<Seq<u8>>::empty());
    assert(holders.union(going) =~= holders);
}

/// What one agent decides from.
pub struct Turn {
    pub cfg: K2ShardingConfig,
    pub ctl: AgentControl,
    pub cur_arc: DhtArc,
    pub cov: Seq<u32>,
    pub live: Seq<(Seq<u8>, ShrinkIntent)>,
    pub visible: int,
    pub tick: Tick,
}

/// What an agent decides in its turn.
pub open spec fn taken(id: Seq<u8>, turn: Turn) -> decide::StepView {
    decide::tick_step(
        turn.cfg,
        id,
        turn.ctl,
        turn.cur_arc,
        turn.cov,
        turn.live,
        turn.visible,
        turn.tick,
    )
}

/// Whether an agent gives a sector up in its turn.
pub open spec fn drops(id: Seq<u8>, turn: Turn, sector: int) -> bool {
    let home = turn.ctl.home as int;
    &&& turn.ctl.wf()
    &&& taken(id, turn).ctl.declared_level < turn.ctl.declared_level
    &&& blocks::in_sectors(blocks::block_at(home, turn.ctl.declared_level as int), sector)
    &&& !blocks::in_sectors(
        blocks::block_at(home, taken(id, turn).ctl.declared_level as int),
        sector,
    )
}

/// The same of whole decisions: whichever agents give a sector up in their
/// turns, each on its own view as above, the target number of holders stays.
pub proof fn law_concurrent_turns_keep_the_target(
    holders: Set<Seq<u8>>,
    going: Set<Seq<u8>>,
    turns: Map<Seq<u8>, Turn>,
    sector: int,
    target: u32,
)
    requires
        holders.finite(),
        going.subset_of(holders),
        going.len() > 0,
        forall|id: Seq<u8>| #[trigger]
            going.contains(id) ==> {
                &&& drops(id, turns[id], sector)
                &&& turns[id].cfg.target_redundancy == target
                &&& turns[id].cov[sector] <= holders.len() - 1
            },
        forall|id: Seq<u8>, first: Seq<u8>|
            going.contains(id) && going.contains(first) && #[trigger] ids::lex_lt(first, id)
                ==> announces(turns[id].live, first, sector),
    ensures
        holders.difference(going).len() >= target,
{
    let cov = Map::new(|id: Seq<u8>| going.contains(id), |id: Seq<u8>| turns[id].cov);
    let live = Map::new(|id: Seq<u8>| going.contains(id), |id: Seq<u8>| turns[id].live);
    let vacate = Map::new(
        |id: Seq<u8>| going.contains(id),
        |id: Seq<u8>| turns[id].ctl.pending->0.vacate,
    );
    assert forall|id: Seq<u8>| #[trigger] going.contains(id) implies {
        &&& blocks::in_range(vacate[id], sector)
        &&& cov[id][sector] <= holders.len() - 1
        &&& decide::may_shrink(cov[id], live[id], id, vacate[id], target)
    } by {
        let turn = turns[id];
        rules::law_sectors_are_dropped_only_after_the_handoff(
            turn.cfg,
            id,
            turn.ctl,
            turn.cur_arc,
            turn.cov,
            turn.live,
            turn.visible,
            turn.tick,
        );
        assert(blocks::in_range(turn.ctl.pending->0.vacate, sector));
    }
    law_concurrent_shrinks_keep_the_target(holders, going, cov, live, vacate, sector, target);
}

/// A contested range has one winner: of agents that all want to vacate a range
/// that can spare only one of them, and that all see each other's announcements
/// and no others, the one that comes first proceeds and all others stand down.
pub proof fn law_contested_range_has_one_winner(
    contenders: Set<Seq<u8>>,
    winner: Seq<u8>,
    other: Seq<u8>,
    cov: Seq<u32>,
    live: Seq<(Seq<u8>, ShrinkIntent)>,
    vacate: (u32, u32),
    target: u32,
)
    requires
        vacate.0 < vacate.1,
        0 < target,
        forall|s: int| vacate.0 <= s < vacate.1 ==> #[trigger] cov[s] == target,
        forall|i: int|
            0 <= i < live.len() ==> contenders.contains((#[trigger] live[i]).0)
                && live[i].1.vacate == vacate,
        forall|id: Seq<u8>| #[trigger]
            contenders.contains(id) ==> exists|i: int|
                0 <= i < live.len() && (#[trigger] live[i]).0 == id,
        contenders.contains(winner),
        contenders.contains(other),
        other != winner,
        forall|id: Seq<u8>| #[trigger]
            contenders.contains(id) ==> id == winner || ids::lex_lt(winner, id),
    ensures
        decide::may_shrink(cov, live, winner, vacate, target),
        !decide::may_shrink(cov, live, other, vacate, target),
{
    assert forall|i: int| 0 <= i < live.len() implies !ids::lex_lt(
        (#[trigger] live[i]).0,
        winner,
    ) by {
        let id = live[i].0;
        assert(contenders.contains(id));
        ids::law_order_is_irreflexive(winner);
        if ids::lex_lt(id, winner) {
            ids::law_order_is_transitive(winner, id, winner);
        }
    }
    law_first_intender_proceeds(cov, live, winner, vacate, target);
    let i = choose|i: int| 0 <= i < live.len() && (#[trigger] live[i]).0 == winner;
    let sector = vacate.0 as int;
    assert(blocks::in_range(live[i].1.vacate, sector));
    assert(announces(live, winner, sector));
    law_outranked_intender_defers(cov, live, other, vacate, target, winner, sector);
}

/// The intender that nobody outranks proceeds wherever the range can spare it:
/// announcements of agents behind it do not hold it back.
pub proof fn law_first_intender_proceeds(
    cov: Seq<u32>,
    live: Seq<(Seq<u8>, ShrinkIntent)>,
    id: Seq<u8>,
    vacate: (u32, u32),
    target: u32,
)
    requires
        vacate.0 < vacate.1,
        forall|i: int| 0 <= i < live.len() ==> !ids::lex_lt((#[trigger] live[i]).0, id),
    ensures
        decide::may_shrink(cov, live, id, vacate, target) <==> forall|s: int|
            vacate.0 <= s < vacate.1 ==> #[trigger] cov[s] >= target,
{
    assert forall|s: int| #[trigger] decide::copies_left(cov, live, id, true, s) == cov[s] by {
        let never = |entry: (Seq<u8>, ShrinkIntent)| false;
        counting::lemma_count_agree(live, decide::leaving(id, true, s), never);
        lemma_none(live, never);
    }
    if decide::may_shrink(cov, live, id, vacate, target) {
        assert forall|s: int| vacate.0 <= s < vacate.1 implies #[trigger] cov[s] >= target by {
            assert(decide::copies_left(cov, live, id, true, s) >= target);
        }
    }
}

/// An intender stands down where a sector of its range has no more than the
/// target number of other holders and one that outranks it is leaving that
/// sector too.
pub proof fn law_outranked_intender_defers(
    cov: Seq<u32>,
    live: Seq<(Seq<u8>, ShrinkIntent)>,
    id: Seq<u8>,
    vacate: (u32, u32),
    target: u32,
    first: Seq<u8>,
    sector: int,
)
    requires
        blocks::in_range(vacate, sector),
        0 < target,
        cov[sector] <= target,
        ids::lex_lt(first, id),
        announces(live, first, sector),
    ensures
        !decide::may_shrink(cov, live, id, vacate, target),
{
    let leaves = decide::leaving(id, true, sector);
    let i = choose|i: int|
        0 <= i < live.len() && (#[trigger] live[i]).0 == first && blocks::in_range(
            live[i].1.vacate,
            sector,
        );
    assert(leaves(live[i]));
    counting::lemma_count_remove(live, leaves, i);
    assert(decide::copies_left(cov, live, id, true, sector) < target);
}

proof fn lemma_none<T>(list: Seq<T>, never: spec_fn(T) -> bool)
    requires
        forall|x: T| !#[trigger] never(x),
    ensures
        counting::count(list, never) == 0,
    decreases list.len(),
{
    if list.len() > 0 {
        lemma_none(list.drop_last(), never);
    }
}

/// An agent's own announcement does not count against it, neither when it
/// re-checks its shrink nor when it looks for sectors to grow into.
pub proof fn law_own_intent_is_not_counted(
    cov: Seq<u32>,
    live: Seq<(Seq<u8>, ShrinkIntent)>,
    id: Seq<u8>,
    intent: ShrinkIntent,
    outranking: bool,
    sector: int,
)
    ensures
        decide::copies_left(cov, live.push((id, intent)), id, outranking, sector)
            == decide::copies_left(cov, live, id, outranking, sector),
{
    ids::law_order_is_irreflexive(id);
    counting::lemma_count_push(live, decide::leaving(id, outranking, sector), (id, intent));
}

/// An announcement for another part of the ring does not interfere.
pub proof fn law_disjoint_intents_do_not_interfere(
    cov: Seq<u32>,
    live: Seq<(Seq<u8>, ShrinkIntent)>,
    id: Seq<u8>,
    vacate: (u32, u32),
    target: u32,
    other: Seq<u8>,
    intent: ShrinkIntent,
)
    requires
        intent.vacate.1 <= vacate.0 || vacate.1 <= intent.vacate.0,
    ensures
        decide::may_shrink(cov, live.push((other, intent)), id, vacate, target)
            == decide::may_shrink(cov, live, id, vacate, target),
{
    let longer = live.push((other, intent));
    assert forall|s: int| vacate.0 <= s < vacate.1 implies #[trigger] decide::copies_left(
        cov,
        longer,
        id,
        true,
        s,
    ) == decide::copies_left(cov, live, id, true, s) by {
        counting::lemma_count_push(live, decide::leaving(id, true, s), (other, intent));
    }
    if decide::may_shrink(cov, longer, id, vacate, target) {
        assert forall|s: int| vacate.0 <= s < vacate.1 implies #[trigger] decide::copies_left(
            cov,
            live,
            id,
            true,
            s,
        ) >= target || vacate.0 == vacate.1 by {
            assert(decide::copies_left(cov, longer, id, true, s) >= target);
        }
    }
}

/// Announcements only ever talk coverage down: one more of them can make an
/// agent grow or stand down, never shrink or stay.
pub proof fn law_intents_only_lower_coverage(
    cov: Seq<u32>,
    live: Seq<(Seq<u8>, ShrinkIntent)>,
    id: Seq<u8>,
    ctl: AgentControl,
    vacate: (u32, u32),
    target: u32,
    entry: (Seq<u8>, ShrinkIntent),
)
    ensures
        decide::wants_to_grow(cov, live, id, ctl, target) ==> decide::wants_to_grow(
            cov,
            live.push(entry),
            id,
            ctl,
            target,
        ),
        decide::may_shrink(cov, live.push(entry), id, vacate, target) ==> decide::may_shrink(
            cov,
            live,
            id,
            vacate,
            target,
        ),
{
    let longer = live.push(entry);
    assert forall|rank: bool, s: int| #[trigger]
        decide::copies_left(cov, longer, id, rank, s) <= decide::copies_left(
            cov,
            live,
            id,
            rank,
            s,
        ) by {
        counting::lemma_count_push(live, decide::leaving(id, rank, s), entry);
    }
    if decide::wants_to_grow(cov, live, id, ctl, target) {
        let half = blocks::sibling_at(ctl.home as int, ctl.declared_level as int);
        let s = choose|s: int|
            blocks::in_sectors(half, s) && #[trigger] decide::copies_left(cov, live, id, false, s)
                < target;
        assert(decide::copies_left(cov, longer, id, false, s) < target);
    }
    if decide::may_shrink(cov, longer, id, vacate, target) && vacate.0 != vacate.1 {
        assert forall|s: int| vacate.0 <= s < vacate.1 implies #[trigger] decide::copies_left(
            cov,
            live,
            id,
            true,
            s,
        ) >= target by {
            assert(decide::copies_left(cov, longer, id, true, s) >= target);
        }
    }
}

/// The order in which intents are listed does not matter.
pub proof fn law_order_of_intents_is_irrelevant(
    cov: Seq<u32>,
    live: Seq<(Seq<u8>, ShrinkIntent)>,
    other: Seq<(Seq<u8>, ShrinkIntent)>,
    id: Seq<u8>,
    outranking: bool,
    sector: int,
)
    requires
        live.to_multiset() == other.to_multiset(),
    ensures
        decide::copies_left(cov, live, id, outranking, sector) == decide::copies_left(
            cov,
            other,
            id,
            outranking,
            sector,
        ),
{
    counting::lemma_count_permuted(live, other, decide::leaving(id, outranking, sector));
}

} // verus!
