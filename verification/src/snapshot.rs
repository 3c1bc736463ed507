//! The snapshot of agents and peers that one controller tick works on.

use crate::config;
use crate::config::{from_millis, K2ShardingConfig};
use crate::counting;
use crate::coverage;
use crate::coverage::{PeerInfo, PeerView};
use crate::dht_arc::DhtArc;
use crate::ids::{AgentId, AgentSet};
use crate::tables::ByteTable;
use vstd::prelude::*;

verus! {

/// A local agent as one tick finds it.
#[derive(Debug)]
pub struct LocalAgent {
    /// The agent.
    pub agent: AgentId,
    /// The location that its id hashes to.
    pub loc: u32,
    /// The storage arc that it declares.
    pub cur_arc: DhtArc,
}

/// A [`LocalAgent`] with its id as a sequence of bytes.
pub struct LocalView {
    pub agent: Seq<u8>,
    pub loc: u32,
    pub cur_arc: DhtArc,
}

impl View for LocalAgent {
    type V = LocalView;

    open spec fn view(&self) -> LocalView {
        LocalView { agent: self.agent@, loc: self.loc, cur_arc: self.cur_arc }
    }
}

/// A snapshot of the local agents.
pub open spec fn local_views(locals: Seq<LocalAgent>) -> Seq<LocalView> {
    Seq::new(locals.len(), |i: int| locals[i]@)
}

/// Whether some local agent has the id.
pub open spec fn is_own(locals: Seq<LocalView>, id: Seq<u8>) -> bool {
    exists|i: int| 0 <= i < locals.len() && (#[trigger] locals[i]).agent == id
}

/// The ids of the local agents.
pub open spec fn own_ids(locals: Seq<LocalView>) -> Set<Seq<u8>> {
    Set::new(|id: Seq<u8>| is_own(locals, id))
}

/// Whether a peer counts as departed: it has left, or it can be addressed but
/// does not respond.
pub open spec fn has_departed(peer: PeerView, unresponsive: bool) -> bool {
    peer.is_tombstone || (peer.has_url && unresponsive)
}

/// Whether a peer with the id has departed.
pub open spec fn is_departed(peers: Seq<PeerView>, unresponsive: Seq<bool>, id: Seq<u8>) -> bool {
    exists|i: int|
        {
            &&& 0 <= i < peers.len()
            &&& (#[trigger] peers[i]).agent == id
            &&& has_departed(peers[i], unresponsive[i])
        }
}

/// The agents that provide no redundancy to others: the local ones, and the
/// peers that have departed.
pub open spec fn gone_ids(
    locals: Seq<LocalView>,
    peers: Seq<PeerView>,
    unresponsive: Seq<bool>,
) -> Set<Seq<u8>> {
    Set::new(|id: Seq<u8>| is_own(locals, id) || is_departed(peers, unresponsive, id))
}

/// The arcs that the live peers declare. Of two entries for one agent the
/// later counts.
pub open spec fn declared_arcs(peers: Seq<PeerView>) -> Map<Seq<u8>, DhtArc>
    decreases peers.len(),
{
    if peers.len() == 0 {
        Map::empty()
    } else {
        let before = declared_arcs(peers.drop_last());
        if peers.last().is_tombstone {
            before
        } else {
            before.insert(peers.last().agent, peers.last().storage_arc)
        }
    }
}

/// Collects the ids of the local agents.
pub fn collect_own(locals: &[LocalAgent]) -> (own: AgentSet)
    ensures
        own@ == own_ids(local_views(locals@)),
{
    let ghost views = local_views(locals@);
    let mut own = AgentSet::new();
    let mut i: usize = 0;
    assert(own@ =~= own_ids(views.take(0)));
    while i < locals.len()
        invariant
            i <= locals@.len(),
            views == local_views(locals@),
            own@ == own_ids(views.take(i as int)),
        decreases locals@.len() - i,
    {
        let ghost before = own@;
        own.insert(locals[i].agent.clone());
        proof {
            let shorter = views.take(i as int);
            let longer = views.take(i + 1);
            assert(views[i as int].agent == locals@[i as int].agent@);
            assert forall|id: Seq<u8>| is_own(longer, id) == (is_own(shorter, id) || id
                == views[i as int].agent) by {
                if is_own(longer, id) {
                    let j = choose|j: int| 0 <= j < longer.len() && (#[trigger] longer[j]).agent
                        == id;
                    if j < i {
                        assert(shorter[j].agent == id);
                    }
                }
                if is_own(shorter, id) {
                    let j = choose|j: int| 0 <= j < shorter.len() && (#[trigger] shorter[j]).agent
                        == id;
                    assert(longer[j].agent == id);
                }
                assert(longer[i as int] == views[i as int]);
            }
            assert(own@ =~= own_ids(longer));
        }
        i = i + 1;
    }
    assert(views.take(i as int) =~= views);
    own
}

/// Collects the agents that provide no redundancy to others.
pub fn collect_gone(
    locals: &[LocalAgent],
    peers: &[PeerInfo],
    unresponsive: &[bool],
) -> (gone: AgentSet)
    requires
        unresponsive@.len() == peers@.len(),
    ensures
        gone@ == gone_ids(local_views(locals@), coverage::peer_views(peers@), unresponsive@),
{
    let ghost own = local_views(locals@);
    let ghost views = coverage::peer_views(peers@);
    let mut gone = collect_own(locals);
    let mut i: usize = 0;
    assert(gone@ =~= gone_ids(own, views.take(0), unresponsive@));
    while i < peers.len()
        invariant
            i <= peers@.len(),
            unresponsive@.len() == peers@.len(),
            views == coverage::peer_views(peers@),
            gone@ == gone_ids(own, views.take(i as int), unresponsive@),
        decreases peers@.len() - i,
    {
        let peer = &peers[i];
        let departed = peer.is_tombstone || (peer.has_url && unresponsive[i]);
        if departed {
            gone.insert(peer.agent.clone());
        }
        proof {
            let shorter = views.take(i as int);
            let longer = views.take(i + 1);
            assert(views[i as int] == peer@);
            assert(longer[i as int] == views[i as int]);
            assert forall|id: Seq<u8>|
                is_departed(longer, unresponsive@, id) == (is_departed(shorter, unresponsive@, id) || (
                departed && id == peer.agent@)) by {
                if is_departed(longer, unresponsive@, id) {
                    let j = choose|j: int|
                        {
                            &&& 0 <= j < longer.len()
                            &&& (#[trigger] longer[j]).agent == id
                            &&& has_departed(longer[j], unresponsive@[j])
                        };
                    if j < i {
                        assert(shorter[j] == longer[j]);
                    }
                }
                if is_departed(shorter, unresponsive@, id) {
                    let j = choose|j: int|
                        {
                            &&& 0 <= j < shorter.len()
                            &&& (#[trigger] shorter[j]).agent == id
                            &&& has_departed(shorter[j], unresponsive@[j])
                        };
                    assert(shorter[j] == longer[j]);
                }
            }
            assert(gone@ =~= gone_ids(own, longer, unresponsive@));
        }
        i = i + 1;
    }
    assert(views.take(i as int) =~= views);
    gone
}

/// Collects the arcs that the live peers declare.
pub fn collect_declared(peers: &[PeerInfo]) -> (declared: ByteTable<DhtArc>)
    ensures
        declared.wf(),
        declared@ == declared_arcs(coverage::peer_views(peers@)),
{
    let ghost views = coverage::peer_views(peers@);
    let mut declared: ByteTable<DhtArc> = ByteTable::new();
    let mut i: usize = 0;
    while i < peers.len()
        invariant
            i <= peers@.len(),
            views == coverage::peer_views(peers@),
            declared.wf(),
            declared@ == declared_arcs(views.take(i as int)),
        decreases peers@.len() - i,
    {
        assert(views.take(i + 1).drop_last() =~= views.take(i as int));
        assert(views[i as int] == peers@[i as int]@);
        if !peers[i].is_tombstone {
            declared.insert(peers[i].agent.clone().bytes, peers[i].storage_arc);
        }
        i = i + 1;
    }
    assert(views.take(i as int) =~= views);
    declared
}

/// Counts the live peers outside the excluded ones.
pub fn count_visible(peers: &[PeerInfo], exclude: &AgentSet) -> (n: usize)
    ensures
        n == counting::count(coverage::peer_views(peers@), coverage::counted(exclude@)),
        n <= peers@.len(),
{
    let ghost views = coverage::peer_views(peers@);
    let ghost has = coverage::counted(exclude@);
    let mut n: usize = 0;
    let mut i: usize = 0;
    while i < peers.len()
        invariant
            n <= i <= peers@.len(),
            views == coverage::peer_views(peers@),
            has == coverage::counted(exclude@),
            n == counting::count(views.take(i as int), has),
        decreases peers@.len() - i,
    {
        proof {
            counting::lemma_count_take(views, has, i as int);
            assert(views[i as int] == peers@[i as int]@);
        }
        if !peers[i].is_tombstone && !exclude.contains(&peers[i].agent) {
            n = n + 1;
        }
        i = i + 1;
    }
    assert(views.take(i as int) =~= views);
    n
}

// ---------------------------------------------------------------------------
// Staleness.

/// How long ago something happened, in nanoseconds; what lies ahead happened
/// just now.
pub open spec fn age(now: i64, past: i64) -> u128 {
    if past <= now {
        ((now - past) * 1000) as u128
    } else {
        0
    }
}

/// Calls the subtraction of two `kitsune2_api::Timestamp`s. It gives the time
/// between them, here in microseconds, and an error where the second lies after
/// the first. It overflows where they are too far apart.
#[verifier::external_body]
fn micros_between(now: i64, past: i64) -> (micros: Option<u64>)
    requires
        now - past <= i64::MAX,
    ensures
        micros == (if past <= now {
            Some((now - past) as u64)
        } else {
            None
        }),
{
    let now = kitsune2_api::Timestamp::from_micros(now);
    let between = now - kitsune2_api::Timestamp::from_micros(past);
    between.ok().map(|time| time.as_micros() as u64)
}

/// Being a live peer outside the excluded ones that can be addressed.
pub open spec fn heard_of(exclude: Set<Seq<u8>>, peer: PeerView) -> bool {
    !peer.is_tombstone && !exclude.contains(peer.agent) && peer.has_url
}

/// The ages of the rounds that are read are machine integers.
pub open spec fn ages_fit(
    peers: Seq<PeerView>,
    exclude: Set<Seq<u8>>,
    last_gossip: Seq<Option<i64>>,
    now: i64,
) -> bool {
    forall|i: int|
        0 <= i < peers.len() && heard_of(exclude, #[trigger] peers[i]) ==> (
        last_gossip[i] matches Some(past) ==> now - past <= i64::MAX)
}

/// How long ago a gossip round with each of the visible peers was completed,
/// for those with which one was.
pub open spec fn staleness(
    peers: Seq<PeerView>,
    exclude: Set<Seq<u8>>,
    last_gossip: Seq<Option<i64>>,
    now: i64,
) -> Seq<u128>
    decreases peers.len(),
{
    if peers.len() == 0 {
        Seq::empty()
    } else {
        let n = peers.len() - 1;
        let before = staleness(peers.drop_last(), exclude, last_gossip, now);
        if heard_of(exclude, peers[n]) && last_gossip[n] is Some {
            before.push(age(now, last_gossip[n]->0))
        } else {
            before
        }
    }
}

/// The order of spans of time.
pub open spec fn shorter_first() -> spec_fn(u128, u128) -> bool {
    |a: u128, b: u128| a <= b
}

/// The member of a list that about nine tenths of it do not exceed.
pub open spec fn ninetieth(list: Seq<u128>) -> u128 {
    let rank = if list.len() * 9 / 10 < list.len() - 1 {
        (list.len() * 9 / 10) as int
    } else {
        list.len() - 1
    };
    list.sort_by(shorter_first())[rank]
}

/// A span of time brought between two bounds.
pub open spec fn clamped(n: u128, low: nat, high: nat) -> nat {
    if n < low {
        low
    } else if n > high {
        high
    } else {
        n as nat
    }
}

/// The staleness of this node's view: the ninetieth percentile between the
/// configured bounds, and the upper bound where no round was completed yet.
pub open spec fn lag(cfg: K2ShardingConfig, list: Seq<u128>) -> nat {
    if list.len() == 0 {
        config::millis(cfg.lag_ceiling_ms)
    } else {
        clamped(
            ninetieth(list),
            config::millis(cfg.lag_floor_ms),
            config::millis(cfg.lag_ceiling_ms),
        )
    }
}

/// Calls `slice::sort_unstable` of std, which puts the members of a list in
/// ascending order.
#[verifier::external_body]
fn sort_spans(list: &mut Vec<u128>)
    ensures
        final(list)@.to_multiset() == old(list)@.to_multiset(),
        forall|i: int, j: int|
            0 <= i <= j < final(list)@.len() ==> final(list)@[i] <= final(list)@[j],
{
    list.sort_unstable();
}

/// Decides whether something is to be asked about a peer: it is live, outside
/// the excluded ones, and can be addressed.
pub fn worth_asking(peer: &PeerInfo, exclude: &AgentSet) -> (asked: bool)
    ensures
        asked == heard_of(exclude@, peer@),
{
    !peer.is_tombstone && !exclude.contains(&peer.agent) && peer.has_url
}

/// Lists how long ago a gossip round with each of the visible peers was
/// completed.
fn collect_staleness(
    peers: &[PeerInfo],
    exclude: &AgentSet,
    last_gossip: &[Option<i64>],
    now: i64,
) -> (list: Vec<u128>)
    requires
        last_gossip@.len() == peers@.len(),
        ages_fit(coverage::peer_views(peers@), exclude@, last_gossip@, now),
    ensures
        list@ == staleness(coverage::peer_views(peers@), exclude@, last_gossip@, now),
        list@.len() <= peers@.len(),
{
    let ghost views = coverage::peer_views(peers@);
    let mut list: Vec<u128> = Vec::new();
    let mut i: usize = 0;
    while i < peers.len()
        invariant
            i <= peers@.len(),
            last_gossip@.len() == peers@.len(),
            ages_fit(views, exclude@, last_gossip@, now),
            views == coverage::peer_views(peers@),
            list@ == staleness(views.take(i as int), exclude@, last_gossip@, now),
            list@.len() <= i,
        decreases peers@.len() - i,
    {
        let peer = &peers[i];
        assert(views.take(i + 1).drop_last() =~= views.take(i as int));
        assert(views[i as int] == peer@);
        if worth_asking(peer, exclude) {
            if let Some(past) = last_gossip[i] {
                let span: u128 = match micros_between(now, past) {
                    Some(micros) => micros as u128 * 1000,
                    None => 0,
                };
                list.push(span);
            }
        }
        i = i + 1;
    }
    assert(views.take(i as int) =~= views);
    list
}

/// This node's staleness: how long ago, at the 90th percentile, it last
/// completed a gossip round with the peers it can see, clamped to the
/// configured bounds, in nanoseconds.
pub fn lag_estimate(
    cfg: &K2ShardingConfig,
    peers: &[PeerInfo],
    exclude: &AgentSet,
    last_gossip: &[Option<i64>],
    now: i64,
) -> (estimate: u128)
    requires
        cfg.lag_floor_ms <= cfg.lag_ceiling_ms || staleness(
            coverage::peer_views(peers@),
            exclude@,
            last_gossip@,
            now,
        ).len() == 0,
        last_gossip@.len() == peers@.len(),
        ages_fit(coverage::peer_views(peers@), exclude@, last_gossip@, now),
    ensures
        estimate == lag(
            *cfg,
            staleness(coverage::peer_views(peers@), exclude@, last_gossip@, now),
        ),
        estimate <= config::millis(cfg.lag_ceiling_ms),
        cfg.lag_floor_ms <= cfg.lag_ceiling_ms ==> config::millis(cfg.lag_floor_ms) <= estimate,
{
    let floor: u128 = from_millis(cfg.lag_floor_ms);
    let ceiling: u128 = from_millis(cfg.lag_ceiling_ms);
    let mut list = collect_staleness(peers, exclude, last_gossip, now);
    if list.len() == 0 {
        // No completed rounds yet: assume the worst.
        return ceiling;
    }
    let ghost unsorted = list@;
    sort_spans(&mut list);
    proof {
        lemma_sorted_is_sort(unsorted, list@);
    }
    let nine_tenths: u128 = list.len() as u128 * 9 / 10;
    let rank: usize = if nine_tenths < (list.len() - 1) as u128 {
        nine_tenths as usize
    } else {
        list.len() - 1
    };
    let span: u128 = list[rank];
    if span < floor {
        floor
    } else if span > ceiling {
        ceiling
    } else {
        span
    }
}

proof fn lemma_sorted_is_sort(list: Seq<u128>, sorted: Seq<u128>)
    requires
        sorted.to_multiset() == list.to_multiset(),
        forall|i: int, j: int| 0 <= i <= j < sorted.len() ==> sorted[i] <= sorted[j],
    ensures
        sorted == list.sort_by(shorter_first()),
        sorted.len() == list.len(),
{
    let leq = shorter_first();
    assert(vstd::relations::total_ordering(leq));
    list.lemma_sort_by_ensures(leq);
    assert(vstd::relations::sorted_by(sorted, leq));
    vstd::seq_lib::lemma_sorted_unique(sorted, list.sort_by(leq), leq);
    sorted.to_multiset_ensures();
    list.to_multiset_ensures();
}

// ---------------------------------------------------------------------------
// Who hears of an announcement.

/// Whether an announcement is sent to a peer: it is live, not of this node,
/// and can be reached.
pub open spec fn is_told(own: Set<Seq<u8>>, peer: PeerView, unresponsive: bool) -> bool {
    !peer.is_tombstone && !own.contains(peer.agent) && peer.has_url && !unresponsive
}

/// The places of the peers to send a sharding message to: every reachable one,
/// once and in order.
pub fn broadcast_targets(
    peers: &[PeerInfo],
    own_ids: &AgentSet,
    unresponsive: &[bool],
) -> (targets: Vec<usize>)
    requires
        unresponsive@.len() == peers@.len(),
    ensures
        forall|k: int|
            0 <= k < targets@.len() ==> #[trigger] targets@[k] < peers@.len() && is_told(
                own_ids@,
                peers@[targets@[k] as int]@,
                unresponsive@[targets@[k] as int],
            ),
        forall|k: int, l: int| 0 <= k < l < targets@.len() ==> targets@[k] < targets@[l],
        forall|i: int|
            0 <= i < peers@.len() && is_told(own_ids@, #[trigger] peers@[i]@, unresponsive@[i])
                ==> targets@.contains(i as usize),
{
    let mut targets: Vec<usize> = Vec::new();
    let mut i: usize = 0;
    while i < peers.len()
        invariant
            i <= peers@.len(),
            unresponsive@.len() == peers@.len(),
            forall|k: int|
                0 <= k < targets@.len() ==> #[trigger] targets@[k] < i && is_told(
                    own_ids@,
                    peers@[targets@[k] as int]@,
                    unresponsive@[targets@[k] as int],
                ),
            forall|k: int, l: int| 0 <= k < l < targets@.len() ==> targets@[k] < targets@[l],
            forall|j: int|
                0 <= j < i && is_told(own_ids@, #[trigger] peers@[j]@, unresponsive@[j])
                    ==> targets@.contains(j as usize),
        decreases peers@.len() - i,
    {
        let ghost before = targets@;
        let peer = &peers[i];
        if worth_asking(peer, own_ids) && !unresponsive[i] {
            targets.push(i);
            assert(targets@[before.len() as int] == i);
            assert forall|x: usize| before.contains(x) implies targets@.contains(x) by {
                let k = choose|k: int| 0 <= k < before.len() && before[k] == x;
                assert(targets@[k] == x);
            }
        }
        i = i + 1;
    }
    targets
}

/// Being a place of a live, addressable peer outside the excluded ones with
/// which a round was completed.
pub open spec fn has_completed(
    peers: Seq<PeerView>,
    exclude: Set<Seq<u8>>,
    last_gossip: Seq<Option<i64>>,
) -> spec_fn(int) -> bool {
    |i: int|
        {
            &&& !peers[i].is_tombstone
            &&& peers[i].has_url
            &&& !exclude.contains(peers[i].agent)
            &&& last_gossip[i] is Some
        }
}

/// How long ago the round at a place was completed, in nanoseconds, and no time
/// where that lies ahead.
pub open spec fn time_since(last_gossip: Seq<Option<i64>>, now: i64) -> spec_fn(int) -> u128 {
    |i: int|
        if last_gossip[i]->0 <= now {
            ((now - last_gossip[i]->0) * 1000) as u128
        } else {
            0
        }
}

/// The staleness is measured on the last completed round with each live,
/// addressable peer outside the excluded ones.
pub proof fn law_staleness_is_of_completed_rounds(
    peers: Seq<PeerView>,
    exclude: Set<Seq<u8>>,
    last_gossip: Seq<Option<i64>>,
    now: i64,
)
    ensures
        staleness(peers, exclude, last_gossip, now) == Seq::new(
            peers.len(),
            |i: int| i,
        ).filter(has_completed(peers, exclude, last_gossip)).map_values(
            time_since(last_gossip, now),
        ),
    decreases peers.len(),
{
    reveal(Seq::filter);
    let at = has_completed(peers, exclude, last_gossip);
    let since = time_since(last_gossip, now);
    let all = Seq::new(peers.len(), |i: int| i);
    if peers.len() > 0 {
        let shorter = peers.drop_last();
        let n = peers.len() - 1;
        let fewer = Seq::new(shorter.len(), |i: int| i);
        law_staleness_is_of_completed_rounds(shorter, exclude, last_gossip, now);
        assert(all.drop_last() =~= fewer);
        assert(fewer.filter(at) == fewer.filter(has_completed(shorter, exclude, last_gossip))) by {
            lemma_filter_agree(fewer, at, has_completed(shorter, exclude, last_gossip));
        }
        assert(all.last() == n);
        let before = fewer.filter(at);
        if at(n) {
            assert(before.push(n).map_values(since) =~= before.map_values(since).push(since(n)));
        }
    }
    assert(staleness(peers, exclude, last_gossip, now) =~= all.filter(at).map_values(since));
}

proof fn lemma_filter_agree(list: Seq<int>, f: spec_fn(int) -> bool, g: spec_fn(int) -> bool)
    requires
        forall|k: int| 0 <= k < list.len() ==> f(#[trigger] list[k]) == g(list[k]),
    ensures
        list.filter(f) == list.filter(g),
    decreases list.len(),
{
    reveal(Seq::filter);
    if list.len() > 0 {
        let shorter = list.drop_last();
        assert forall|k: int| 0 <= k < shorter.len() implies f(#[trigger] shorter[k]) == g(
            shorter[k],
        ) by {
            assert(shorter[k] == list[k]);
        }
        lemma_filter_agree(shorter, f, g);
        assert(f(list[list.len() - 1]) == g(list[list.len() - 1]));
    }
}

/// Being at most a bound.
pub open spec fn at_most(bound: u128) -> spec_fn(u128) -> bool {
    |x: u128| x <= bound
}

/// Being less than a bound.
pub open spec fn less_than(bound: u128) -> spec_fn(u128) -> bool {
    |x: u128| x < bound
}

/// The estimate is a member of the list that more than nine tenths of it do not
/// exceed, or all of it where the list is short, and that no more than nine
/// tenths fall below, brought between the bounds; and the upper bound where the
/// list is empty.
pub proof fn law_lag_is_the_ninetieth_percentile(cfg: K2ShardingConfig, list: Seq<u128>)
    requires
        cfg.lag_floor_ms <= cfg.lag_ceiling_ms,
    ensures
        list.len() == 0 ==> lag(cfg, list) == cfg.lag_ceiling_ms * 1_000_000,
        list.len() > 0 ==> exists|v: u128|
            {
                let low = cfg.lag_floor_ms * 1_000_000;
                let high = cfg.lag_ceiling_ms * 1_000_000;
                &&& #[trigger] list.contains(v)
                &&& 10 * list.filter(at_most(v)).len() > 9 * list.len()
                &&& 10 * list.filter(less_than(v)).len() <= 9 * list.len()
                &&& lag(cfg, list) == if v < low {
                    low as int
                } else if v > high {
                    high as int
                } else {
                    v as int
                }
            },
{
    if list.len() > 0 {
        let leq = shorter_first();
        let sorted = list.sort_by(leq);
        assert(vstd::relations::total_ordering(leq));
        list.lemma_sort_by_ensures(leq);
        sorted.to_multiset_ensures();
        list.to_multiset_ensures();
        assert(sorted.len() == list.len());
        let v = ninetieth(list);
        let rank = if list.len() * 9 / 10 < list.len() - 1 {
            (list.len() * 9 / 10) as int
        } else {
            list.len() - 1
        };
        assert(sorted[rank] == v);
        assert(sorted.contains(v));
        assert(list.to_multiset().count(v) > 0);
        assert(list.contains(v));
        counting::law_count_is_the_length_of_the_filter(list, at_most(v));
        counting::law_count_is_the_length_of_the_filter(list, less_than(v));
        counting::lemma_count_permuted(list, sorted, at_most(v));
        counting::lemma_count_permuted(list, sorted, less_than(v));
        assert forall|i: int, j: int| 0 <= i <= j < sorted.len() implies sorted[i] <= sorted[j] by {
            if i < j {
                assert(leq(sorted[i], sorted[j]));
            }
        }
        lemma_count_front(sorted, at_most(v), rank + 1);
        lemma_count_back(sorted, less_than(v), rank);
    }
}

proof fn lemma_count_front(list: Seq<u128>, has: spec_fn(u128) -> bool, n: int)
    requires
        0 <= n <= list.len(),
        forall|i: int| 0 <= i < n ==> has(#[trigger] list[i]),
    ensures
        counting::count(list, has) >= n,
    decreases list.len(),
{
    if list.len() > 0 {
        let shorter = list.drop_last();
        if n == list.len() {
            assert(has(list[n - 1]));
            lemma_count_front(shorter, has, n - 1);
        } else {
            lemma_count_front(shorter, has, n);
        }
    }
}

proof fn lemma_count_back(list: Seq<u128>, below: spec_fn(u128) -> bool, n: int)
    requires
        0 <= n <= list.len(),
        forall|i: int| n <= i < list.len() ==> !below(#[trigger] list[i]),
    ensures
        counting::count(list, below) <= n,
    decreases list.len(),
{
    if list.len() > 0 {
        let shorter = list.drop_last();
        if n == list.len() {
            counting::lemma_count_at_most_len(list, below);
        } else {
            assert(!below(list[list.len() - 1]));
            lemma_count_back(shorter, below, n);
        }
    }
}

/// Told of an announcement are the live peers of other nodes that can be
/// addressed and respond; asked about are the live peers outside the excluded
/// ones that can be addressed.
pub proof fn law_who_is_told_and_asked_about(
    own: Set<Seq<u8>>,
    peer: PeerView,
    unresponsive: bool,
)
    ensures
        is_told(own, peer, unresponsive) <==> !peer.is_tombstone && peer.has_url && !unresponsive
            && !own.contains(peer.agent),
        heard_of(own, peer) <==> !peer.is_tombstone && peer.has_url && !own.contains(peer.agent),
        coverage::counted(own)(peer) <==> !peer.is_tombstone && !own.contains(peer.agent),
{
}

} // verus!
