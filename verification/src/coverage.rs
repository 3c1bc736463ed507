//! Per-sector redundancy counting from declared storage arcs.

use crate::blocks;
use crate::blocks::{covers_sector, NUM_SECTORS, SECTOR_SIZE};
use crate::counting;
use crate::dht_arc;
use crate::dht_arc::DhtArc;
use crate::ids::{AgentId, AgentSet};
use vstd::prelude::*;

verus! {

/// What this node knows of a peer.
#[derive(Debug)]
pub struct PeerInfo {
    /// The peer's agent.
    pub agent: AgentId,
    /// Whether the agent has announced that it left.
    pub is_tombstone: bool,
    /// Whether the agent can be reached at some URL.
    pub has_url: bool,
    /// The storage arc that the agent declares.
    pub storage_arc: DhtArc,
}

/// A [`PeerInfo`] with its id as a sequence of bytes.
pub struct PeerView {
    pub agent: Seq<u8>,
    pub is_tombstone: bool,
    pub has_url: bool,
    pub storage_arc: DhtArc,
}

impl View for PeerInfo {
    type V = PeerView;

    open spec fn view(&self) -> PeerView {
        PeerView {
            agent: self.agent@,
            is_tombstone: self.is_tombstone,
            has_url: self.has_url,
            storage_arc: self.storage_arc,
        }
    }
}

/// A snapshot of the peer store.
pub open spec fn peer_views(peers: Seq<PeerInfo>) -> Seq<PeerView> {
    Seq::new(peers.len(), |i: int| peers[i]@)
}

/// Being a live peer outside the excluded ones.
pub open spec fn counted(exclude: Set<Seq<u8>>) -> spec_fn(PeerView) -> bool {
    |peer: PeerView| !peer.is_tombstone && !exclude.contains(peer.agent)
}

/// Being a live peer outside the excluded ones that declares a whole sector.
pub open spec fn declares(exclude: Set<Seq<u8>>, sector: int) -> spec_fn(PeerView) -> bool {
    |peer: PeerView|
        !peer.is_tombstone && !exclude.contains(peer.agent) && blocks::covers(
            peer.storage_arc,
            sector,
        )
}

/// How many copies of a sector the peers declare.
pub open spec fn copies(peers: Seq<PeerView>, exclude: Set<Seq<u8>>, sector: int) -> nat {
    counting::count(peers, declares(exclude, sector))
}

/// Subtraction that stops at zero.
pub open spec fn saturating_minus(n: int, k: int) -> int {
    if n > k {
        n - k
    } else {
        0
    }
}

/// Adds one copy to every sector fully covered by `arc`.
pub fn add_arc(cov: &mut [u32], arc: &DhtArc)
    requires
        old(cov)@.len() <= NUM_SECTORS,
        forall|s: int|
            0 <= s < old(cov)@.len() && blocks::covers(*arc, s) ==> #[trigger] old(cov)@[s]
                < u32::MAX,
    ensures
        final(cov)@.len() == old(cov)@.len(),
        forall|s: int|
            0 <= s < old(cov)@.len() ==> #[trigger] final(cov)@[s] == old(cov)@[s]
                + if blocks::covers(*arc, s) {
                1int
            } else {
                0int
            },
{
    match arc {
        DhtArc::Empty => {
            assert forall|s: int| 0 <= s < cov@.len() implies !#[trigger] blocks::covers(
                *arc,
                s,
            ) by {
                assert(!dht_arc::arc_has(*arc, s * SECTOR_SIZE));
            }
        },
        DhtArc::Arc(..) => {
            let mut sector: usize = 0;
            while sector < cov.len()
                invariant
                    sector <= cov@.len() <= NUM_SECTORS,
                    cov@.len() == old(cov)@.len(),
                    forall|s: int|
                        0 <= s < old(cov)@.len() && blocks::covers(*arc, s)
                            ==> #[trigger] old(cov)@[s] < u32::MAX,
                    forall|s: int|
                        0 <= s < sector ==> #[trigger] cov@[s] == old(cov)@[s]
                            + if blocks::covers(*arc, s) {
                            1int
                        } else {
                            0int
                        },
                    forall|s: int| sector <= s < cov.len() ==> #[trigger] cov@[s] == old(cov)@[s],
                decreases cov.len() - sector,
            {
                if covers_sector(arc, sector as u32) {
                    let more: u32 = cov[sector] + 1;
                    cov[sector] = more;
                }
                sector = sector + 1;
            }
        },
    }
}

/// Saturating-subtracts one copy from every sector in the half-open sector
/// range `[start, end)`.
pub fn subtract_sectors(cov: &mut [u32], start: u32, end: u32)
    requires
        start <= end,
    ensures
        final(cov)@.len() == old(cov)@.len(),
        forall|s: int|
            0 <= s < old(cov)@.len() ==> #[trigger] final(cov)@[s] == if start <= s < end {
                saturating_minus(old(cov)@[s] as int, 1)
            } else {
                old(cov)@[s] as int
            },
{
    let mut i: usize = start as usize;
    while i < cov.len() && i < end as usize
        invariant
            cov@.len() == old(cov)@.len(),
            start <= i,
            forall|s: int|
                0 <= s < cov@.len() ==> #[trigger] cov@[s] == if start <= s < i {
                    saturating_minus(old(cov)@[s] as int, 1)
                } else {
                    old(cov)@[s] as int
                },
            i <= end,
            start <= end,
        decreases cov@.len() - i,
    {
        cov[i] = cov[i].saturating_sub(1);
        i = i + 1;
    }
}

/// The minimum coverage over the half-open sector range `[start, end)`, which
/// is zero over no sectors at all.
pub fn min_over(cov: &[u32], start: u32, end: u32) -> (least: u32)
    requires
        start <= end <= cov@.len(),
    ensures
        start == end ==> least == 0,
        start < end ==> forall|s: int| start <= s < end ==> least <= #[trigger] cov@[s],
        start < end ==> exists|s: int| start <= s < end && least == #[trigger] cov@[s],
{
    if start == end {
        return 0;
    }
    let mut least: u32 = cov[start as usize];
    let mut i: usize = start as usize + 1;
    while i < end as usize
        invariant
            start < i <= end <= cov@.len(),
            forall|s: int| start <= s < i ==> least <= #[trigger] cov@[s],
            exists|s: int| start <= s < i && least == #[trigger] cov@[s],
        decreases end - i,
    {
        if cov[i] < least {
            least = cov[i];
        }
        i = i + 1;
    }
    least
}

/// A vector of zeros, one for each sector.
fn no_coverage() -> (cov: Vec<u32>)
    ensures
        cov@.len() == NUM_SECTORS,
        forall|s: int| 0 <= s < NUM_SECTORS ==> #[trigger] cov@[s] == 0,
{
    let mut cov: Vec<u32> = Vec::new();
    let mut i: u32 = 0;
    while i < NUM_SECTORS
        invariant
            i <= NUM_SECTORS,
            cov@.len() == i,
            forall|s: int| 0 <= s < i ==> #[trigger] cov@[s] == 0,
        decreases NUM_SECTORS - i,
    {
        cov.push(0);
        i = i + 1;
    }
    cov
}

/// Counts, for every sector, how many of the given peers declare a storage
/// arc covering it. Tombstoned peers and the agents in `exclude` are not
/// counted, so the result is the redundancy provided by others.
pub fn others_coverage(peers: &[PeerInfo], exclude: &AgentSet) -> (cov: Vec<u32>)
    requires
        peers@.len() <= u32::MAX,
    ensures
        cov@.len() == NUM_SECTORS,
        forall|s: int|
            0 <= s < NUM_SECTORS ==> #[trigger] cov@[s] == copies(
                peer_views(peers@),
                exclude@,
                s,
            ),
{
    let mut cov = no_coverage();
    let ghost views = peer_views(peers@);
    let mut i: usize = 0;
    while i < peers.len()
        invariant
            i <= peers@.len() <= u32::MAX,
            views == peer_views(peers@),
            cov@.len() == NUM_SECTORS,
            forall|s: int|
                0 <= s < NUM_SECTORS ==> #[trigger] cov@[s] == copies(
                    views.take(i as int),
                    exclude@,
                    s,
                ),
        decreases peers.len() - i,
    {
        let ghost before = cov@;
        let peer = &peers[i];
        assert(views[i as int] == peer@);
        proof {
            assert forall|s: int| 0 <= s < NUM_SECTORS implies #[trigger] before[s] < u32::MAX by {
                counting::lemma_count_at_most_len(views.take(i as int), declares(exclude@, s));
            }
        }
        if !(peer.is_tombstone || exclude.contains(&peer.agent)) {
            add_arc(&mut cov, &peer.storage_arc);
        }
        proof {
            assert forall|s: int| 0 <= s < NUM_SECTORS implies #[trigger] cov@[s] == copies(
                views.take(i + 1),
                exclude@,
                s,
            ) by {
                counting::lemma_count_take(views, declares(exclude@, s), i as int);
                assert(before[s] == copies(views.take(i as int), exclude@, s));
            }
        }
        i = i + 1;
    }
    assert(views.take(i as int) =~= views);
    cov
}

} // verus!
