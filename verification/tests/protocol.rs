//! The wire format of sharding messages.

use kitsune2_gossip::protocol::{
    deserialize_sharding_message, merge_intent, serialize_sharding_message, K2ShardingMessage,
    K2ShardingShrinkIntentMessage, Msg, ShardingError,
};

fn intent(agent_id: &[u8], start: u32, end: u32, expires: i64) -> K2ShardingShrinkIntentMessage {
    K2ShardingShrinkIntentMessage {
        agent_id: agent_id.to_vec(),
        vacate_start: start,
        vacate_end: end,
        expires_at_us: expires,
    }
}

fn message(intent: K2ShardingShrinkIntentMessage) -> K2ShardingMessage {
    K2ShardingMessage {
        msg: Some(Msg::ShrinkIntent(intent)),
    }
}

fn parts(msg: &K2ShardingMessage) -> Option<(Vec<u8>, u32, u32, i64)> {
    match &msg.msg {
        Some(Msg::ShrinkIntent(i)) => Some((
            i.agent_id.clone(),
            i.vacate_start,
            i.vacate_end,
            i.expires_at_us,
        )),
        None => None,
    }
}

fn read(bytes: &[u8]) -> Option<(Vec<u8>, u32, u32, i64)> {
    parts(&deserialize_sharding_message(bytes).unwrap())
}

fn refused(bytes: &[u8]) -> bool {
    match deserialize_sharding_message(bytes) {
        Err(ShardingError::BadMessage) => true,
        Ok(_) => false,
    }
}

#[test]
fn shrink_intent_round_trip() {
    let make = || message(intent(b"test-agent", 7 << 23, (15 << 23) - 1, 1_234_567));

    let decoded = deserialize_sharding_message(&serialize_sharding_message(make())).unwrap();

    assert_eq!(parts(&make()), parts(&decoded));
}

#[test]
fn message_bytes_are_fixed() {
    let bytes = serialize_sharding_message(message(intent(b"ab", 1, 300, 5)));
    assert_eq!(
        vec![10, 11, 10, 2, 97, 98, 16, 1, 24, 172, 2, 32, 5],
        bytes
    );
    // defaults are left out
    assert_eq!(vec![10, 0], serialize_sharding_message(message(intent(b"", 0, 0, 0))));
    assert_eq!(
        Vec::<u8>::new(),
        serialize_sharding_message(K2ShardingMessage { msg: None })
    );
    // a negative expiry takes all ten bytes
    let bytes = serialize_sharding_message(message(intent(b"", 0, 0, -1)));
    assert_eq!(
        vec![10, 11, 32, 255, 255, 255, 255, 255, 255, 255, 255, 255, 1],
        bytes
    );
}

#[test]
fn every_message_comes_back() {
    for expires in [i64::MIN, -1, 0, 1, 127, 128, i64::MAX] {
        for end in [0u32, 1, 127, 128, 16_384, u32::MAX] {
            let bytes = serialize_sharding_message(message(intent(b"id", 3, end, expires)));
            assert_eq!(Some((b"id".to_vec(), 3, end, expires)), read(&bytes));
        }
    }
    assert_eq!(None, read(&[]));
    let long = vec![7u8; 300];
    let bytes = serialize_sharding_message(message(intent(&long, 0, 0, 0)));
    assert_eq!(Some((long, 0, 0, 0)), read(&bytes));
}

#[test]
fn unknown_fields_are_passed_over() {
    // a varint, a fixed64, bytes, a group and a fixed32 around the intent
    let mut bytes = vec![16u8, 1, 25, 1, 2, 3, 4, 5, 6, 7, 8, 34, 2, 9, 9];
    bytes.extend_from_slice(&[43, 48, 7, 44]);
    bytes.extend_from_slice(&[61, 1, 2, 3, 4]);
    bytes.extend_from_slice(&[10, 6, 10, 1, 97, 40, 1, 0]);
    // the last field of the intent has the number zero
    assert!(refused(&bytes));
    let at = bytes.len() - 7;
    bytes.truncate(at - 1);
    bytes.extend_from_slice(&[10, 5, 10, 1, 97, 40, 1]);
    assert_eq!(Some((b"a".to_vec(), 0, 0, 0)), read(&bytes));
}

#[test]
fn a_second_intent_is_read_on_top_of_the_first() {
    let bytes = [10u8, 5, 10, 1, 97, 16, 4, 10, 5, 10, 1, 98, 24, 9];
    assert_eq!(Some((b"b".to_vec(), 4, 9, 0)), read(&bytes));
}

#[test]
fn integers_keep_their_lowest_bits() {
    // 2^32 + 5 for a location
    let bytes = [10u8, 6, 16, 133, 128, 128, 128, 16];
    assert_eq!(Some((Vec::new(), 5, 0, 0)), read(&bytes));
}

#[test]
fn malformed_messages_are_refused() {
    // cut short
    assert!(refused(&[10]));
    assert!(refused(&[10, 5, 10]));
    assert!(refused(&[10, 3, 10, 2, 97]));
    // a field of the intent reaches beyond it
    assert!(refused(&[10, 3, 10, 2, 97, 98]));
    // the wrong shape for a known field
    assert!(refused(&[8, 1]));
    assert!(refused(&[10, 2, 8, 1]));
    assert!(refused(&[10, 3, 18, 1, 97]));
    // no such shape, no such field, the stray end of a group
    assert!(refused(&[14, 0]));
    assert!(refused(&[2, 0]));
    assert!(refused(&[20]));
    // a number that does not end, and one that is too large
    assert!(refused(&[16, 255, 255, 255, 255, 255, 255, 255, 255, 255, 255, 1]));
    assert!(refused(&[16, 255, 255, 255, 255, 255, 255, 255, 255, 255, 2]));
    // an unfinished group
    assert!(refused(&[19, 16, 1]));
    assert_eq!(
        "Failed to deserialize sharding message",
        ShardingError::BadMessage.describe()
    );
}

#[test]
fn groups_may_nest_only_so_deep() {
    // in the outermost message one level more is allowed than in the intent
    let nested = |depth: usize| {
        let mut bytes: Vec<u8> = Vec::new();
        for _ in 0..depth {
            bytes.push(43);
        }
        for _ in 0..depth {
            bytes.push(44);
        }
        bytes
    };
    assert_eq!(None, read(&nested(100)));
    assert!(refused(&nested(101)));
    let inside = |depth: usize| {
        let inner = nested(depth);
        let mut bytes: Vec<u8> = vec![10, inner.len() as u8 | 128, (inner.len() >> 7) as u8];
        bytes.extend_from_slice(&inner);
        bytes
    };
    assert_eq!(Some((Vec::new(), 0, 0, 0)), read(&inside(99)));
    assert!(refused(&inside(100)));
}

#[test]
fn fields_of_an_intent_merge() {
    let merged = merge_intent(&[16, 7], intent(b"x", 1, 2, 3)).unwrap();
    assert_eq!(7, merged.vacate_start);
    assert_eq!(2, merged.vacate_end);
    assert_eq!(b"x".to_vec(), merged.agent_id);
    assert!(merge_intent(&[18, 7], intent(b"x", 1, 2, 3)).is_none());
}
