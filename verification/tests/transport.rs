//! The in-process transport.

use kitsune2_gossip::decimal::{parse_u64, put_decimal};
use kitsune2_gossip::instances::{Route, TransportInstances};
use kitsune2_gossip::mem_transport::{
    judge_first_message, judge_type, settle_send, Action, ConnectionStats, Event, MemTransport,
    SendReply, SendResult, Verdict, PREFLIGHT,
};
use kitsune2_gossip::tables::ByteTable;
use kitsune2_gossip::url::Url;

fn url(text: &str) -> Url {
    Url::parse(text.as_bytes().to_vec()).unwrap()
}

fn transport(directory: &mut TransportInstances) -> MemTransport {
    let listener = directory.listen().unwrap();
    MemTransport::create(&listener)
}

fn shown(actions: Vec<Action>) -> Vec<String> {
    actions.iter().map(|action| format!("{action:?}")).collect()
}

#[test]
fn listeners_are_numbered_and_reached_under_their_url() {
    let mut directory = TransportInstances::new();
    let first = directory.listen().unwrap();
    let second = directory.listen().unwrap();
    assert_eq!(1, first.id);
    assert_eq!(2, second.id);
    assert_eq!(&b"ws://stub.tx:42/2".to_vec(), second.url().as_bytes());
    let pool: ByteTable<u64> = ByteTable::new();
    assert_eq!(Route::Dial(2), directory.connect(&pool, &second.url()));
    assert_eq!(Route::Nowhere, directory.connect(&pool, &url("ws://stub.tx:42/3")));
    directory.remove(second.id);
    assert_eq!(Route::Nowhere, directory.connect(&pool, &second.url()));
    assert_eq!(Route::Dial(1), directory.connect(&pool, &first.url()));
    assert!(directory.contains(1));
    assert!(!directory.contains(2));
}

#[test]
fn ids_start_over_when_they_run_out() {
    let mut directory = TransportInstances::new();
    directory.next_id = u64::MAX;
    let last = directory.listen().unwrap();
    assert_eq!(&b"ws://stub.tx:42/18446744073709551615".to_vec(), last.url().as_bytes());
    assert_eq!(0, directory.listen().unwrap().id);
}

#[test]
fn urls_without_a_listener_lead_nowhere() {
    let mut directory = TransportInstances::new();
    directory.listen().unwrap();
    let pool: ByteTable<u64> = ByteTable::new();
    for text in [
        "ws://stub.tx:42",
        "ws://stub.tx:42/one",
        "ws://stub.tx:42/1a",
        "ws://stub.tx:42/18446744073709551616",
        "ws://stub.tx:42/-1",
    ] {
        assert_eq!(Route::Nowhere, directory.connect(&pool, &url(text)));
    }
    // what stands behind the last slash counts
    assert_eq!(Route::Dial(1), directory.connect(&pool, &url("ws://a.b:80/x/1")));
    assert_eq!(Route::Dial(1), directory.connect(&pool, &url("ws://a.b:80/+01")));
}

#[test]
fn urls_are_validated() {
    assert!(Url::parse(b"not a url".to_vec()).is_none());
    assert!(Url::parse(b"ftp://a.b:80/1".to_vec()).is_none());
    assert!(Url::parse(vec![255, 254]).is_none());
    assert_eq!(Some(b"1".to_vec()), url("ws://a.b:80/1").peer_id());
    assert_eq!(None, url("ws://a.b:80").peer_id());
    assert_eq!(url("ws://a.b:80/1").clone().as_bytes(), url("ws://a.b:80/1").as_bytes());
}

#[test]
fn numbers_in_decimal_notation() {
    for n in [0u64, 7, 10, 99, 100, 1_234_567_890, u64::MAX] {
        let mut text: Vec<u8> = Vec::new();
        put_decimal(&mut text, n);
        assert_eq!(n.to_string().into_bytes(), text);
        assert_eq!(Some(n), parse_u64(&text));
    }
    for text in ["", "+", "1", "+1", "-1", "0x1", " 1", "1 ", "00012", "++1", "1_0"] {
        assert_eq!(text.parse::<u64>().ok(), parse_u64(text.as_bytes()));
    }
    assert_eq!(None, parse_u64(b"18446744073709551616"));
    assert_eq!(None, parse_u64(b"99999999999999999999999"));
}

fn peer() -> Url {
    url("ws://stub.tx:42/2")
}

fn stats_of(transport: &MemTransport) -> Option<ConnectionStats> {
    transport.stats.get(peer().as_bytes())
}

#[test]
fn traffic_is_counted_per_peer() {
    let mut directory = TransportInstances::new();
    let mut transport = transport(&mut directory);
    assert_eq!(&b"ws://stub.tx:42/1".to_vec(), transport.this_url.as_bytes());
    directory.listen().unwrap();
    // no connection yet: one is made, and nothing is counted
    let actions = transport.step(Event::Send { url: peer(), size: 10, at_s: 5 }, &directory);
    assert_eq!(vec!["Dial(2)"], shown(actions));
    assert_eq!(None, stats_of(&transport));
    let actions =
        transport.step(Event::Dialled { url: peer(), conn: 7, size: 10, at_s: 5 }, &directory);
    assert_eq!(vec!["Deliver(7)"], shown(actions));
    // the connection is registered and used from then on
    let actions =
        transport.step(Event::Register { url: peer(), conn: 7, accepted: true }, &directory);
    assert_eq!(vec!["Greet(7)"], shown(actions));
    let actions = transport.step(Event::Send { url: peer(), size: 3, at_s: 6 }, &directory);
    assert_eq!(vec!["Deliver(7)"], shown(actions));
    let actions = transport.step(Event::Receive { url: peer(), size: 100, at_s: 9 }, &directory);
    assert_eq!(vec!["Handle"], shown(actions));
    assert_eq!(
        Some(ConnectionStats {
            send_message_count: 2,
            send_bytes: 13,
            recv_message_count: 1,
            recv_bytes: 100,
            opened_at_s: 5,
            is_direct: false,
        }),
        stats_of(&transport)
    );
    // a handled message changes nothing
    let actions = transport.step(Event::Handled { url: peer(), failure: None }, &directory);
    assert!(actions.is_empty());
    assert_eq!(2, stats_of(&transport).unwrap().send_message_count);
}

#[test]
fn a_peer_that_is_not_there_gets_nothing() {
    let mut directory = TransportInstances::new();
    let mut transport = transport(&mut directory);
    let actions = transport.step(Event::Send { url: peer(), size: 10, at_s: 5 }, &directory);
    assert!(actions.is_empty());
    assert_eq!(None, stats_of(&transport));
}

fn connected(directory: &mut TransportInstances) -> MemTransport {
    let mut transport = transport(directory);
    transport.step(Event::Register { url: peer(), conn: 7, accepted: true }, directory);
    transport.step(Event::Receive { url: peer(), size: 1, at_s: 0 }, directory);
    transport
}

#[test]
fn a_refused_peer_is_not_registered() {
    let mut directory = TransportInstances::new();
    let mut transport = transport(&mut directory);
    let actions =
        transport.step(Event::Register { url: peer(), conn: 7, accepted: false }, &directory);
    assert!(actions.is_empty());
    assert_eq!(None, transport.pool.get(peer().as_bytes()));
}

#[test]
fn a_replaced_connection_is_closed_without_a_reason() {
    let mut directory = TransportInstances::new();
    let mut transport = connected(&mut directory);
    let actions =
        transport.step(Event::Register { url: peer(), conn: 8, accepted: true }, &directory);
    assert_eq!(vec!["Greet(8)", "Close(7, None)"], shown(actions));
    assert_eq!(None, stats_of(&transport));
    assert_eq!(Some(8), transport.pool.get(peer().as_bytes()));
}

#[test]
fn a_failing_message_closes_the_connection() {
    let mut directory = TransportInstances::new();
    let mut transport = connected(&mut directory);
    let failed = || Event::Handled { url: peer(), failure: Some(vec![1, 2]) };
    assert_eq!(vec!["Close(7, Some([1, 2]))"], shown(transport.step(failed(), &directory)));
    assert_eq!(None, stats_of(&transport));
    // without a connection there is nothing to close, and what is counted stays
    transport.step(Event::Receive { url: peer(), size: 1, at_s: 0 }, &directory);
    assert!(transport.step(failed(), &directory).is_empty());
    assert_eq!(1, stats_of(&transport).unwrap().recv_message_count);
}

#[test]
fn disconnecting_sends_a_message_only_where_there_is_one() {
    let mut directory = TransportInstances::new();
    let mut transport = connected(&mut directory);
    let with = || Event::Disconnect { url: peer(), reason: Some(vec![9]) };
    assert_eq!(
        vec!["Dismiss(7)", "Close(7, Some([9]))"],
        shown(transport.step(with(), &directory))
    );
    // a second time nothing happens
    assert!(transport.step(with(), &directory).is_empty());
    let mut transport = connected(&mut directory);
    let actions = transport.step(Event::Disconnect { url: peer(), reason: None }, &directory);
    assert_eq!(vec!["Close(7, None)"], shown(actions));
    assert_eq!(None, stats_of(&transport));
    assert_eq!(None, transport.pool.get(peer().as_bytes()));
}

#[test]
fn other_peers_are_left_alone() {
    let mut directory = TransportInstances::new();
    let mut transport = connected(&mut directory);
    let other = || url("ws://stub.tx:42/3");
    transport.step(Event::Register { url: other(), conn: 9, accepted: true }, &directory);
    transport.step(Event::Receive { url: other(), size: 4, at_s: 1 }, &directory);
    transport.step(Event::Disconnect { url: peer(), reason: None }, &directory);
    assert_eq!(Some(9), transport.pool.get(other().as_bytes()));
    assert_eq!(4, transport.stats.get(other().as_bytes()).unwrap().recv_bytes);
}

#[test]
fn counts_that_run_over_are_noticed() {
    let mut directory = TransportInstances::new();
    let mut transport = connected(&mut directory);
    assert!(transport.has_room(&Event::Receive { url: peer(), size: u64::MAX - 1, at_s: 0 }));
    assert!(!transport.has_room(&Event::Receive { url: peer(), size: u64::MAX, at_s: 0 }));
    assert!(transport.has_room(&Event::Send { url: peer(), size: u64::MAX, at_s: 0 }));
    transport.step(Event::Send { url: peer(), size: 1, at_s: 0 }, &directory);
    let dialled = Event::Dialled { url: peer(), conn: 1, size: u64::MAX, at_s: 0 };
    assert!(!transport.has_room(&dialled));
    assert!(transport.has_room(&Event::Disconnect { url: peer(), reason: None }));
}

#[test]
fn the_first_message_must_be_a_preflight() {
    let encode = |ty: kitsune2_api::K2WireType| {
        kitsune2_api::K2Proto {
            ty: ty as i32,
            data: bytes::Bytes::from_static(b"data"),
            space_id: None,
            module_id: None,
        }
        .encode()
        .unwrap()
    };
    assert_eq!(kitsune2_api::K2WireType::Preflight as i32, PREFLIGHT);
    let preflight = encode(kitsune2_api::K2WireType::Preflight);
    assert_eq!(Verdict::Ready, judge_first_message(&preflight));
    let notify = encode(kitsune2_api::K2WireType::Notify);
    assert_eq!(Verdict::NotPreflight(2), judge_first_message(&notify));
    assert_eq!(Verdict::NotPreflight(0), judge_first_message(&[]));
    assert_eq!(Verdict::Undecodable, judge_first_message(&[255]));
    assert_eq!(Verdict::Ready, judge_type(Some(1)));
    assert_eq!(Verdict::NotPreflight(15), judge_type(Some(15)));
    assert_eq!(Verdict::Undecodable, judge_type(None));
}

#[test]
fn failed_sends_mark_the_peer() {
    assert_eq!((SendResult::Sent, false), settle_send(SendReply::Done));
    assert_eq!((SendResult::PeerError, true), settle_send(SendReply::Failed));
    assert_eq!((SendResult::ConnectionClosed, true), settle_send(SendReply::Lost));
    assert_eq!((SendResult::ConnectionClosed, true), settle_send(SendReply::NotQueued));
}

/// The peers of which something is counted, as they are listed.
fn listed(transport: &MemTransport) -> Vec<String> {
    (0..transport.stats.len())
        .map(|i| String::from_utf8(transport.stats.key_at(i).clone()).unwrap())
        .collect()
}

#[test]
fn counts_are_listed_in_the_order_in_which_they_were_started() {
    let mut directory = TransportInstances::new();
    let mut transport = transport(&mut directory);
    assert!(listed(&transport).is_empty());
    let names = ["ws://stub.tx:42/9", "ws://stub.tx:42/3", "ws://stub.tx:42/7", "ws://stub.tx:42/5"];
    for (i, name) in names.iter().enumerate() {
        let conn = i as u64;
        transport.step(Event::Register { url: url(name), conn, accepted: true }, &directory);
        transport.step(Event::Receive { url: url(name), size: 1, at_s: 0 }, &directory);
    }
    assert_eq!(names.to_vec(), listed(&transport));
    // further traffic does not move a peer
    transport.step(Event::Send { url: url(names[1]), size: 1, at_s: 0 }, &directory);
    transport.step(Event::Receive { url: url(names[0]), size: 1, at_s: 0 }, &directory);
    assert_eq!(names.to_vec(), listed(&transport));
    // those behind one that leaves close up
    transport.step(Event::Disconnect { url: url(names[1]), reason: None }, &directory);
    assert_eq!(vec![names[0], names[2], names[3]], listed(&transport));
    // one whose connection is replaced starts over at the end
    transport.step(Event::Register { url: url(names[0]), conn: 9, accepted: true }, &directory);
    assert_eq!(vec![names[2], names[3]], listed(&transport));
    transport.step(Event::Receive { url: url(names[0]), size: 1, at_s: 0 }, &directory);
    assert_eq!(vec![names[2], names[3], names[0]], listed(&transport));
    // what concerns nobody in the list leaves it as it is
    transport.step(Event::Disconnect { url: url(names[1]), reason: None }, &directory);
    assert_eq!(vec![names[2], names[3], names[0]], listed(&transport));
}
