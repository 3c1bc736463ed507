//! The table of announced intents.

use kitsune2_api::Timestamp;
use kitsune2_gossip::blocks::{NUM_SECTORS, SECTOR_SIZE};
use kitsune2_gossip::dht_arc::DhtArc;
use kitsune2_gossip::ids::{AgentId, AgentSet};
use kitsune2_gossip::intents::{arc_contains_sectors, retain_declared, IntentTable, ShrinkIntent};
use kitsune2_gossip::tables::ByteTable;
use std::time::Duration;

fn agent(b: &'static [u8]) -> AgentId {
    AgentId::new(b.to_vec())
}

#[test]
fn expired_intents_age_out() {
    let mut table = IntentTable::default();
    let now = Timestamp::now();
    table.insert(
        agent(b"a"),
        ShrinkIntent {
            vacate: (0, 8),
            expires_at: (now + Duration::from_secs(10)).as_micros(),
        },
    );
    table.insert(
        agent(b"b"),
        ShrinkIntent {
            vacate: (8, 16),
            expires_at: (now - Duration::from_secs(1)).unwrap().as_micros(),
        },
    );

    let live = table.live(now.as_micros());
    assert_eq!(1, live.len());
    assert_eq!(agent(b"a").bytes, live[0].0.bytes);
}

fn intent(vacate: (u32, u32)) -> ShrinkIntent {
    ShrinkIntent {
        vacate,
        expires_at: (Timestamp::now() + Duration::from_secs(60)).as_micros(),
    }
}

fn declaring(id: &'static [u8], arc: DhtArc) -> ByteTable<DhtArc> {
    let mut declared: ByteTable<DhtArc> = ByteTable::new();
    declared.insert(id.to_vec(), arc);
    declared
}

#[test]
fn range_validation_drops_forged_stale_and_unknown_intents() {
    let sector = |s: u32| s * SECTOR_SIZE;
    // "small" declares sectors [0, 16); "ghost" is not in the store.
    let declared = declaring(b"small", DhtArc::Arc(0, sector(16) - 1));
    let mut own = AgentSet::new();
    own.insert(agent(b"me"));

    let mut live = vec![
        // inside the declared arc: kept
        (agent(b"small"), intent((8, 16))),
        // whole-ring forgery in small's name: dropped
        (agent(b"small"), intent((0, NUM_SECTORS))),
        // outside the declared arc (forged, or stale after an
        // executed shrink): dropped
        (agent(b"small"), intent((16, 24))),
        // announcer unknown to the peer store: dropped
        (agent(b"ghost"), intent((0, 8))),
        // own agents bypass validation
        (agent(b"me"), intent((0, 8))),
    ];
    retain_declared(&mut live, &declared, &own);

    let kept: Vec<_> = live.iter().map(|(a, i)| (a.bytes.clone(), i.vacate)).collect();
    assert_eq!(
        vec![
            (agent(b"small").bytes, (8, 16)),
            (agent(b"me").bytes, (0, 8))
        ],
        kept
    );
}

#[test]
fn range_validation_handles_wrapping_arcs() {
    let sector = |s: u32| s * SECTOR_SIZE;
    // wraps: sectors [500, 512) and [0, 4)
    let declared = declaring(b"w", DhtArc::Arc(sector(500), sector(4) - 1));
    let own = AgentSet::new();

    let mut live = vec![
        (agent(b"w"), intent((500, 512))), // fully inside: kept
        (agent(b"w"), intent((2, 6))),     // straddles the gap: dropped
    ];
    retain_declared(&mut live, &declared, &own);
    assert_eq!(1, live.len());
    assert_eq!((500, 512), live[0].1.vacate);
}

#[test]
fn reannouncement_replaces() {
    let mut table = IntentTable::default();
    let now = Timestamp::now();
    for vacate in [(0, 8), (8, 16)] {
        table.insert(
            agent(b"a"),
            ShrinkIntent {
                vacate,
                expires_at: (now + Duration::from_secs(10)).as_micros(),
            },
        );
    }
    let live = table.live(now.as_micros());
    assert_eq!(1, live.len());
    assert_eq!((8, 16), live[0].1.vacate);
}

#[test]
fn an_intent_is_void_from_its_expiry_on() {
    let mut table = IntentTable::default();
    table.insert(agent(b"a"), ShrinkIntent { vacate: (0, 8), expires_at: 100 });
    table.insert(agent(b"b"), ShrinkIntent { vacate: (0, 4), expires_at: 200 });
    assert_eq!(2, table.live(99).len());
    assert_eq!(1, table.live(100).len());
    // it was dropped for good
    assert_eq!(1, table.live(0).len());
    table.remove(&agent(b"b"));
    assert_eq!(0, table.live(0).len());
    table.remove(&agent(b"b"));
}

#[test]
fn empty_and_overlong_ranges_lie_in_no_arc() {
    assert!(!arc_contains_sectors(&DhtArc::full(), (8, 8)));
    assert!(!arc_contains_sectors(&DhtArc::full(), (9, 8)));
    assert!(!arc_contains_sectors(&DhtArc::full(), (0, 513)));
    assert!(arc_contains_sectors(&DhtArc::full(), (0, 512)));
    assert!(!arc_contains_sectors(&DhtArc::Empty, (0, 1)));
}

#[test]
fn tables_hold_one_value_for_each_key() {
    let mut table: ByteTable<u64> = ByteTable::new();
    table.insert(b"x".to_vec(), 1);
    table.insert(b"y".to_vec(), 2);
    table.insert(b"x".to_vec(), 3);
    assert_eq!(2, table.len());
    assert_eq!(Some(3), table.get(&b"x".to_vec()));
    assert_eq!(&b"y".to_vec(), table.key_at(1));
    assert_eq!(2, table.value_at(1));
    table.set_at(1, 9);
    table.remove_at(0);
    assert_eq!(None, table.get(&b"x".to_vec()));
    assert_eq!(Some(9), table.get(&b"y".to_vec()));
    table.remove(&b"y".to_vec());
    assert_eq!(0, table.len());
}

#[test]
fn a_range_is_declared_only_where_every_location_is() {
    let arc = DhtArc::Arc(SECTOR_SIZE - 1, 0);
    assert!(!arc_contains_sectors(&arc, (0, 1)));
    assert!(!arc_contains_sectors(&arc, (0, 2)));
    assert!(arc_contains_sectors(&arc, (1, NUM_SECTORS)));
}
