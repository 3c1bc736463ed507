//! Counting copies of sectors, and order on ids.

use kitsune2_gossip::blocks::{sectors_to_arc, NUM_SECTORS, SECTOR_SIZE};
use kitsune2_gossip::coverage::{add_arc, min_over, others_coverage, subtract_sectors, PeerInfo};
use kitsune2_gossip::dht_arc::DhtArc;
use kitsune2_gossip::ids::{AgentId, AgentSet};

fn id(bytes: &[u8]) -> AgentId {
    AgentId::new(bytes.to_vec())
}

fn peer(bytes: &[u8], arc: DhtArc) -> PeerInfo {
    PeerInfo {
        agent: id(bytes),
        is_tombstone: false,
        has_url: true,
        storage_arc: arc,
    }
}

#[test]
fn coverage_counts_live_peers_outside_the_excluded() {
    let mut gone_peer = peer(b"t", DhtArc::full());
    gone_peer.is_tombstone = true;
    let peers = vec![
        peer(b"a", sectors_to_arc(0, 4)),
        peer(b"b", sectors_to_arc(2, 6)),
        peer(b"me", DhtArc::full()),
        gone_peer,
        peer(b"e", DhtArc::Empty),
        // covers sector 8 only in part
        peer(b"p", DhtArc::Arc(8 * SECTOR_SIZE, 9 * SECTOR_SIZE - 2)),
    ];
    let mut own = AgentSet::new();
    own.insert(id(b"me"));
    let cov = others_coverage(&peers, &own);
    assert_eq!(NUM_SECTORS as usize, cov.len());
    assert_eq!(vec![1, 1, 2, 2, 1, 1, 0, 0, 0], cov[0..9].to_vec());

    // the order of the peers does not matter
    let mut turned: Vec<PeerInfo> = Vec::new();
    for p in peers.into_iter().rev() {
        turned.push(p);
    }
    assert_eq!(cov, others_coverage(&turned, &own));
}

#[test]
fn wrapping_arcs_are_counted_on_both_ends() {
    let mut cov = vec![0u32; NUM_SECTORS as usize];
    add_arc(&mut cov, &DhtArc::Arc(510 * SECTOR_SIZE, 2 * SECTOR_SIZE - 1));
    assert_eq!(vec![1, 1, 0], cov[0..3].to_vec());
    assert_eq!(vec![0, 1, 1], cov[509..512].to_vec());
    add_arc(&mut cov, &DhtArc::Empty);
    assert_eq!(4, cov.iter().sum::<u32>());
}

#[test]
fn subtraction_stops_at_zero_and_at_the_end() {
    let mut cov = vec![2u32, 1, 0, 3];
    subtract_sectors(&mut cov, 1, 3);
    assert_eq!(vec![2, 0, 0, 3], cov);
    subtract_sectors(&mut cov, 3, 100);
    assert_eq!(vec![2, 0, 0, 2], cov);
    subtract_sectors(&mut cov, 2, 2);
    assert_eq!(vec![2, 0, 0, 2], cov);
}

#[test]
fn the_minimum_over_nothing_is_zero() {
    let cov = vec![4u32, 7, 5, 9];
    assert_eq!(4, min_over(&cov, 0, 4));
    assert_eq!(5, min_over(&cov, 1, 3));
    assert_eq!(9, min_over(&cov, 3, 4));
    assert_eq!(0, min_over(&cov, 2, 2));
}

#[test]
fn ids_are_ordered_by_bytes() {
    assert!(id(b"aaa").precedes(&id(b"aab")));
    assert!(id(b"aa").precedes(&id(b"aaa")));
    assert!(!id(b"aaa").precedes(&id(b"aaa")));
    assert!(!id(b"b").precedes(&id(b"aaaa")));
    assert!(id(b"").precedes(&id(b"a")));
    assert!(id(b"a").same(&id(b"a")));
    assert!(!id(b"a").same(&id(b"ab")));
    assert!(id(b"z").clone().same(&id(b"z")));
}

#[test]
fn ids_are_ordered_as_the_api_orders_them() {
    let samples: [&[u8]; 6] = [b"", b"a", b"ab", b"b", b"\xff", b"\xff\x00"];
    for a in samples {
        for b in samples {
            let left = kitsune2_api::AgentId::from(bytes::Bytes::copy_from_slice(a));
            let right = kitsune2_api::AgentId::from(bytes::Bytes::copy_from_slice(b));
            assert_eq!(left < right, id(a).precedes(&id(b)));
            assert_eq!(left == right, id(a).same(&id(b)));
        }
    }
}

#[test]
fn an_arc_that_misses_the_inside_of_a_sector_does_not_cover_it() {
    // from the last location of sector 0 round the ring to the first
    let arc = DhtArc::Arc(SECTOR_SIZE - 1, 0);
    let mut cov = vec![0; NUM_SECTORS as usize];
    add_arc(&mut cov, &arc);
    assert_eq!(0, cov[0]);
    assert!(cov[1..].iter().all(|n| *n == 1));
    // a gap of one location is enough
    let mut cov = vec![0; NUM_SECTORS as usize];
    add_arc(&mut cov, &DhtArc::Arc(3 * SECTOR_SIZE + 9, 3 * SECTOR_SIZE + 7));
    assert_eq!(0, cov[3]);
    assert_eq!(NUM_SECTORS as u32 - 1, cov.iter().sum::<u32>());
    // and without a gap the ring is full
    let mut cov = vec![0; NUM_SECTORS as usize];
    add_arc(&mut cov, &DhtArc::Arc(3 * SECTOR_SIZE + 8, 3 * SECTOR_SIZE + 7));
    assert!(cov.iter().all(|n| *n == 1));
}
