//! Block math.

use kitsune2_gossip::blocks::{
    block, block_arc, covers_sector, home_sector, sectors_to_arc, sibling_half, vacate_half, MAX_LEVEL,
    NUM_SECTORS, SECTOR_SIZE,
};
use kitsune2_gossip::dht_arc::DhtArc;

#[test]
fn ring_constants() {
    // The DHT model quantises the ring into 512 sectors; the block
    // math relies on that being a power of two.
    assert_eq!(512, NUM_SECTORS);
    assert_eq!(9, MAX_LEVEL);
    assert!(NUM_SECTORS.is_power_of_two());
}

#[test]
fn constants_agree_with_the_dht_model() {
    assert_eq!(kitsune2_dht::SECTOR_SIZE, SECTOR_SIZE);
    assert_eq!(u32::MAX / kitsune2_dht::SECTOR_SIZE + 1, NUM_SECTORS);
    assert_eq!(NUM_SECTORS.trailing_zeros() as u8, MAX_LEVEL);
}

#[test]
fn block_fixtures() {
    // level 0 is just the home sector
    assert_eq!((37, 38), block(37, 0));
    // blocks are aligned, not centred on home
    assert_eq!((36, 38), block(37, 1));
    assert_eq!((32, 40), block(37, 3));
    // max level is the full ring regardless of home
    assert_eq!((0, NUM_SECTORS), block(37, MAX_LEVEL));
    assert_eq!((0, NUM_SECTORS), block(511, MAX_LEVEL + 3));
}

#[test]
fn sibling_is_other_half_of_parent() {
    for home in [0u32, 1, 37, 255, 256, 511] {
        for level in 0..MAX_LEVEL {
            let (cs, ce) = block(home, level);
            let (ss, se) = sibling_half(home, level);
            let (ps, pe) = block(home, level + 1);
            // sibling and current tile the parent exactly
            assert_eq!((pe - ps), (ce - cs) + (se - ss));
            assert!(ss >= ps && se <= pe);
            // and do not overlap
            assert!(se <= cs || ss >= ce);
        }
    }
}

#[test]
fn vacate_is_half_not_containing_home() {
    for home in [0u32, 1, 37, 255, 256, 511] {
        for level in 1..=MAX_LEVEL {
            let (vs, ve) = vacate_half(home, level);
            let (ks, ke) = block(home, level - 1);
            // home stays in the kept half
            assert!(ks <= home && home < ke);
            // vacated half is outside the kept half
            assert!(ve <= ks || vs >= ke);
            // together they tile the current block
            let (cs, ce) = block(home, level);
            assert_eq!(ce - cs, (ke - ks) + (ve - vs));
        }
    }
}

#[test]
fn sectors_to_arc_bounds() {
    assert_eq!(DhtArc::full(), sectors_to_arc(0, NUM_SECTORS));
    assert_eq!(DhtArc::Arc(0, SECTOR_SIZE - 1), sectors_to_arc(0, 1));
    // the last sector's inclusive end is u32::MAX
    assert_eq!(
        DhtArc::Arc((NUM_SECTORS - 1) * SECTOR_SIZE, u32::MAX),
        sectors_to_arc(NUM_SECTORS - 1, NUM_SECTORS)
    );
}

#[test]
fn halves_of_one_home() {
    assert_eq!((36, 37), sibling_half(37, 0));
    assert_eq!((38, 40), sibling_half(37, 1));
    assert_eq!((256, 512), sibling_half(37, 8));
    assert_eq!((36, 37), vacate_half(37, 1));
    assert_eq!((256, 512), vacate_half(37, 9));
    // what a shrink drops, growing back regains
    for level in 1..=MAX_LEVEL {
        assert_eq!(sibling_half(37, level - 1), vacate_half(37, level));
    }
}

#[test]
fn blocks_of_one_level_overlap_wholly_or_not_at_all() {
    for level in 0..=MAX_LEVEL {
        let mut a: u32 = 0;
        while a < NUM_SECTORS {
            let first = block(a, level);
            let second = block((a * 7 + 3) % NUM_SECTORS, level);
            assert!(first == second || first.1 <= second.0 || second.1 <= first.0);
            a += 1;
        }
    }
}

#[test]
fn an_arc_covers_exactly_its_sectors() {
    let arc = sectors_to_arc(36, 40);
    assert_eq!(DhtArc::Arc(36 * SECTOR_SIZE, 40 * SECTOR_SIZE - 1), arc);
    let mut s: u32 = 0;
    while s < NUM_SECTORS {
        let inside = arc.contains(s * SECTOR_SIZE)
            && arc.contains(s * SECTOR_SIZE + (SECTOR_SIZE - 1));
        assert_eq!(36 <= s && s < 40, inside);
        s += 1;
    }
}

#[test]
fn an_agent_holds_its_own_location() {
    for loc in [0u32, 1, SECTOR_SIZE - 1, SECTOR_SIZE, 3_000_000_000, u32::MAX] {
        for level in 0..=MAX_LEVEL {
            assert!(block_arc(home_sector(loc), level).contains(loc));
        }
    }
    assert_eq!(511, home_sector(u32::MAX));
    assert_eq!(1, home_sector(SECTOR_SIZE));
}

#[test]
fn arcs_contain_their_bounds_and_wrap() {
    assert!(!DhtArc::Empty.contains(0));
    assert!(DhtArc::full().contains(0));
    assert!(DhtArc::full().contains(u32::MAX));
    assert!(DhtArc::Arc(32, 64).contains(32));
    assert!(DhtArc::Arc(32, 64).contains(64));
    assert!(!DhtArc::Arc(32, 64).contains(65));
    let wrapping = DhtArc::Arc(u32::MAX - 32, 32);
    assert!(wrapping.contains(u32::MAX));
    assert!(wrapping.contains(0));
    assert!(!wrapping.contains(33));
    assert!(!wrapping.contains(u32::MAX - 33));
}

#[test]
fn a_sector_is_covered_where_every_location_is() {
    assert!(!covers_sector(&DhtArc::Empty, 0));
    assert!(covers_sector(&DhtArc::full(), 511));
    let arc = sectors_to_arc(4, 8);
    assert!(!covers_sector(&arc, 3) && covers_sector(&arc, 4));
    assert!(covers_sector(&arc, 7) && !covers_sector(&arc, 8));
    assert!(!covers_sector(&DhtArc::Arc(SECTOR_SIZE - 1, 0), 0));
    assert!(!covers_sector(&DhtArc::Arc(1, SECTOR_SIZE - 1), 0));
    assert!(!covers_sector(&DhtArc::Arc(0, SECTOR_SIZE - 2), 0));
}

#[test]
fn the_top_level_is_the_whole_ring_wherever_home_is() {
    assert_eq!(DhtArc::full(), block_arc(0, MAX_LEVEL));
    assert_eq!(DhtArc::full(), block_arc(u32::MAX, MAX_LEVEL));
    assert_eq!(DhtArc::full(), block_arc(u32::MAX, MAX_LEVEL + 1));
}
