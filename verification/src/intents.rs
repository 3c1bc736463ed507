//! Table of announced shrink intents.
//!
//! Holds both remote intents received on the sharding channel and this node's
//! own local agents' pending intents. An intent expires at the timestamp its
//! announcer attached to it.

use crate::blocks;
use crate::blocks::{covers_sector, NUM_SECTORS};
use crate::dht_arc::DhtArc;
use crate::ids::{bytes_copy, AgentId, AgentSet};
use crate::tables;
use crate::tables::ByteTable;
use vstd::prelude::*;

verus! {

/// One announced shrink intent.
#[derive(Clone, Copy, Debug)]
pub struct ShrinkIntent {
    /// Half-open sector range being vacated.
    pub vacate: (u32, u32),
    /// When this intent is void, in microseconds.
    pub expires_at: i64,
}

/// Whether a vacate range is a stretch of the ring.
pub open spec fn on_ring(vacate: (u32, u32)) -> bool {
    vacate.0 < vacate.1 <= NUM_SECTORS
}

/// A list of intents with the intenders' ids as sequences of bytes.
pub open spec fn intent_views(list: Seq<(AgentId, ShrinkIntent)>) -> Seq<
    (Seq<u8>, ShrinkIntent),
> {
    Seq::new(list.len(), |i: int| (list[i].0@, list[i].1))
}

/// Being an entry that has not expired.
pub open spec fn unexpired(now: i64) -> spec_fn((Seq<u8>, ShrinkIntent)) -> bool {
    |entry: (Seq<u8>, ShrinkIntent)| entry.1.expires_at > now
}

/// The table without the intents that are void at `now`.
pub open spec fn without_expired(table: Map<Seq<u8>, ShrinkIntent>, now: i64) -> Map<
    Seq<u8>,
    ShrinkIntent,
> {
    table.restrict(
        Set::new(|id: Seq<u8>| table.contains_key(id) && table[id].expires_at > now),
    )
}

/// Whether every sector of a range lies fully within an arc. An empty range
/// and one that leaves the ring do not.
pub open spec fn arc_covers_range(arc: DhtArc, range: (u32, u32)) -> bool {
    &&& range.0 < range.1 <= NUM_SECTORS
    &&& forall|s: int| range.0 <= s < range.1 ==> #[trigger] blocks::covers(arc, s)
}

/// Being an entry to act on: of an agent of this node, or over sectors that
/// its announcer declares.
pub open spec fn credible(
    declared: Map<Seq<u8>, DhtArc>,
    own_ids: Set<Seq<u8>>,
) -> spec_fn((Seq<u8>, ShrinkIntent)) -> bool {
    |entry: (Seq<u8>, ShrinkIntent)|
        own_ids.contains(entry.0) || (declared.contains_key(entry.0) && arc_covers_range(
            declared[entry.0],
            entry.1.vacate,
        ))
}

/// Expiring table of announced shrink intents, keyed by intender.
///
/// A later announcement from the same agent replaces the earlier one; an
/// agent can only have one shrink in flight.
#[derive(Debug)]
pub struct IntentTable {
    inner: ByteTable<ShrinkIntent>,
}

impl View for IntentTable {
    type V = Map<Seq<u8>, ShrinkIntent>;

    closed spec fn view(&self) -> Map<Seq<u8>, ShrinkIntent> {
        self.inner@
    }
}

impl IntentTable {
    /// Each agent has at most one intent.
    pub closed spec fn wf(&self) -> bool {
        self.inner.wf()
    }

    /// The intents in the order in which the table holds them.
    pub closed spec fn listing(&self) -> Seq<(Seq<u8>, ShrinkIntent)> {
        self.inner.listing()
    }

    /// The listing writes down the table.
    pub proof fn lemma_listing(&self)
        requires
            self.wf(),
        ensures
            tables::distinct_keys(self.listing()),
            self@ == tables::as_table(self.listing()),
    {
    }

    /// Records an agent's intent, in place of any it announced before.
    pub fn insert(&mut self, agent: AgentId, intent: ShrinkIntent)
        requires
            old(self).wf(),
        ensures
            final(self).wf(),
            final(self)@ == old(self)@.insert(agent@, intent),
    {
        self.inner.insert(agent.bytes, intent);
    }

    /// Forgets an agent's intent.
    pub fn remove(&mut self, agent: &AgentId)
        requires
            old(self).wf(),
        ensures
            final(self).wf(),
            final(self)@ == old(self)@.remove(agent@),
    {
        self.inner.remove(&agent.bytes);
    }

    /// Drops expired intents and returns the live ones.
    pub fn live(&mut self, now: i64) -> (live: Vec<(AgentId, ShrinkIntent)>)
        requires
            old(self).wf(),
        ensures
            final(self).wf(),
            final(self)@ == without_expired(old(self)@, now),
            final(self).listing() == old(self).listing().filter(unexpired(now)),
            intent_views(live@) == final(self).listing(),
    {
        let mut live: Vec<(AgentId, ShrinkIntent)> = Vec::new();
        let ghost all = self.inner.listing();
        let ghost pass = unexpired(now);
        let ghost mut seen: int = 0;
        assert(all.take(0) =~= Seq::<(Seq<u8>, ShrinkIntent)>::empty());
        reveal(Seq::filter);
        assert(intent_views(live@) + all.skip(0) =~= all);
        assert(intent_views(live@) =~= all.take(0).filter(pass));
        while live.len() < self.inner.len()
            invariant
                self.inner.wf(),
                0 <= seen <= all.len(),
                pass == unexpired(now),
                intent_views(live@) == all.take(seen).filter(pass),
                self.inner.listing() == intent_views(live@) + all.skip(seen),
            decreases self.inner.listing().len() - live@.len(),
        {
            let i: usize = live.len();
            let intent = self.inner.value_at(i);
            let ghost before = self.inner.listing();
            let ghost kept = intent_views(live@);
            assert(before[i as int] == all[seen]);
            assert(all.take(seen + 1) =~= all.take(seen).push(all[seen]));
            proof {
                all.take(seen).lemma_filter_push(all[seen], pass);
            }
            if intent.expires_at > now {
                let agent = AgentId::new(bytes_copy(self.inner.key_at(i)));
                live.push((agent, intent));
                assert(intent_views(live@) =~= kept.push(all[seen]));
                assert(before =~= intent_views(live@) + all.skip(seen + 1));
            } else {
                self.inner.remove_at(i);
                assert(self.inner.listing() =~= kept + all.skip(seen + 1));
            }
            proof {
                seen = seen + 1;
            }
        }
        proof {
            assert(all.skip(seen).len() == 0);
            assert(all.take(seen) =~= all);
            assert(self.inner.listing() =~= intent_views(live@));
            tables::lemma_filter(all, pass);
            assert(self@ =~= without_expired(old(self)@, now));
        }
        live
    }
}

impl Default for IntentTable {
    fn default() -> (table: IntentTable)
        ensures
            table.wf(),
            table@ == Map::<Seq<u8>, ShrinkIntent>::empty(),
            table.listing() == Seq::<(Seq<u8>, ShrinkIntent)>::empty(),
    {
        IntentTable { inner: ByteTable::new() }
    }
}

/// True if every sector in the half-open range lies fully within `arc`.
pub fn arc_contains_sectors(arc: &DhtArc, range: (u32, u32)) -> (inside: bool)
    ensures
        inside == arc_covers_range(*arc, range),
{
    let (start, end) = range;
    if start >= end || end > NUM_SECTORS {
        return false;
    }
    let mut sector: u32 = start;
    while sector < end
        invariant
            range == (start, end),
            start <= sector <= end <= NUM_SECTORS,
            forall|s: int| start <= s < sector ==> #[trigger] blocks::covers(*arc, s),
        decreases end - sector,
    {
        if !covers_sector(arc, sector) {
            return false;
        }
        sector = sector + 1;
    }
    true
}

/// Keeps only intents whose vacate range lies inside the announcer's declared
/// arc, as this node sees it. Local agents bypass the check: their intents are
/// made here, not received. An intent from an agent that declares nothing is
/// dropped.
pub fn retain_declared(
    live: &mut Vec<(AgentId, ShrinkIntent)>,
    declared: &ByteTable<DhtArc>,
    own_ids: &AgentSet,
)
    requires
        declared.wf(),
    ensures
        intent_views(final(live)@) == intent_views(old(live)@).filter(
            credible(declared@, own_ids@),
        ),
{
    let ghost all = intent_views(live@);
    let ghost pass = credible(declared@, own_ids@);
    let ghost mut seen: int = 0;
    let mut i: usize = 0;
    reveal(Seq::filter);
    assert(all.take(0).filter(pass) =~= Seq::<(Seq<u8>, ShrinkIntent)>::empty());
    assert(all =~= all.take(0).filter(pass) + all.skip(0));
    while i < live.len()
        invariant
            declared.wf(),
            pass == credible(declared@, own_ids@),
            0 <= seen <= all.len(),
            i == all.take(seen).filter(pass).len(),
            intent_views(live@) == all.take(seen).filter(pass) + all.skip(seen),
        decreases live@.len() - i,
    {
        let ghost before = intent_views(live@);
        let ghost kept = all.take(seen).filter(pass);
        assert(before[i as int] == all[seen]);
        assert(all.take(seen + 1) =~= all.take(seen).push(all[seen]));
        proof {
            all.take(seen).lemma_filter_push(all[seen], pass);
        }
        let keep = own_ids.contains(&live[i].0) || match declared.get(&live[i].0.bytes) {
            Some(arc) => arc_contains_sectors(&arc, live[i].1.vacate),
            None => false,
        };
        if keep {
            i = i + 1;
            assert(before =~= kept.push(all[seen]) + all.skip(seen + 1));
        } else {
            live.remove(i);
            assert(intent_views(live@) =~= before.remove(i as int));
            assert(intent_views(live@) =~= kept + all.skip(seen + 1));
        }
        proof {
            seen = seen + 1;
        }
    }
    assert(all.skip(seen).len() == 0);
    assert(all.take(seen) =~= all);
    assert(intent_views(live@) =~= all.filter(pass));
}

} // verus!
