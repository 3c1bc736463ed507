//! The in-process directory of transports: which listeners exist, and under
//! which URL each is reached.

use crate::decimal;
use crate::decimal::{parse_u64, put_decimal};
use crate::tables::ByteTable;
use crate::url;
use crate::url::Url;
use vstd::prelude::*;

verus! {

/// What the URL of every listener starts with: `ws://stub.tx:42/`.
pub open spec fn listener_prefix() -> Seq<u8> {
    seq![119u8, 115, 58, 47, 47, 115, 116, 117, 98, 46, 116, 120, 58, 52, 50, 47]
}

/// The text of a listener's URL: the prefix and its id.
pub open spec fn listener_text(id: u64) -> Seq<u8> {
    listener_prefix() + decimal::decimal(id as nat)
}

/// The listener that a URL names: its peer id read as a number.
pub open spec fn listener_named(text: Seq<u8>) -> Option<u64> {
    match url::peer_id_of(text) {
        Some(id) => match decimal::parsed(id) {
            Some(n) => Some(n as u64),
            None => None,
        },
        None => None,
    }
}

/// A listener: the receiver side of pseudo connections.
#[derive(Debug)]
pub struct Listener {
    /// Identifies the listener in the process.
    pub id: u64,
    /// The URL under which the listener is reached.
    pub url: Url,
}

impl Listener {
    /// The text of the listener's URL.
    pub open spec fn text(&self) -> Seq<u8> {
        self.url@
    }

    /// The listener's URL.
    pub fn url(&self) -> (url: Url)
        ensures
            url@ == self.text(),
    {
        self.url.clone()
    }
}

/// Where a message for a peer goes.
#[derive(Clone, Copy, Debug, PartialEq, Eq)]
pub enum Route {
    /// Over an open connection.
    Open(u64),
    /// Over a new connection to a listener.
    Dial(u64),
    /// Nowhere: the peer is not in this process.
    Nowhere,
}

/// Where a message for a peer goes: over the open connection if there is one,
/// else to the listener that the URL names if it exists.
pub open spec fn route(pool: Map<Seq<u8>, u64>, live: Set<u64>, text: Seq<u8>) -> Route {
    if pool.contains_key(text) {
        Route::Open(pool[text])
    } else {
        match listener_named(text) {
            Some(id) => if live.contains(id) {
                Route::Dial(id)
            } else {
                Route::Nowhere
            },
            None => Route::Nowhere,
        }
    }
}

/// The listeners of the process.
#[derive(Debug)]
pub struct TransportInstances {
    /// The id of the next listener.
    pub next_id: u64,
    /// The ids of the listeners that exist.
    pub live: Vec<u64>,
}

impl View for TransportInstances {
    type V = Set<u64>;

    open spec fn view(&self) -> Set<u64> {
        self.live@.to_set()
    }
}

fn put_prefix(out: &mut Vec<u8>)
    ensures
        final(out)@ == old(out)@ + listener_prefix(),
{
    out.push(119);
    out.push(115);
    out.push(58);
    out.push(47);
    out.push(47);
    out.push(115);
    out.push(116);
    out.push(117);
    out.push(98);
    out.push(46);
    out.push(116);
    out.push(120);
    out.push(58);
    out.push(52);
    out.push(50);
    out.push(47);
    assert(out@ =~= old(out)@ + listener_prefix());
}

impl TransportInstances {
    /// A process without listeners. Ids count from one.
    pub fn new() -> (instances: TransportInstances)
        ensures
            instances@ == Set::<u64>::empty(),
            instances.next_id == 1,
    {
        let instances = TransportInstances { next_id: 1, live: Vec::new() };
        assert(instances@ =~= Set::<u64>::empty());
        instances
    }

    /// Whether a listener exists.
    pub fn contains(&self, id: u64) -> (found: bool)
        ensures
            found == self@.contains(id),
    {
        let mut i: usize = 0;
        while i < self.live.len()
            invariant
                i <= self.live@.len(),
                forall|j: int| 0 <= j < i ==> self.live@[j] != id,
            decreases self.live@.len() - i,
        {
            if self.live[i] == id {
                assert(self.live@.contains(id));
                return true;
            }
            i = i + 1;
        }
        false
    }

    /// Binds a new listener under the next id, if its URL is accepted as one.
    /// Ids start over when they run out.
    pub fn listen(&mut self) -> (listener: Option<Listener>)
        ensures
            final(self).next_id == if old(self).next_id == u64::MAX {
                0
            } else {
                old(self).next_id + 1
            },
            match listener {
                Some(listener) => {
                    &&& listener.id == old(self).next_id
                    &&& listener.text() == listener_text(listener.id)
                    &&& url::valid_url(listener.text())
                    &&& final(self)@ == old(self)@.insert(listener.id)
                },
                None => {
                    &&& !url::valid_url(listener_text(old(self).next_id))
                    &&& final(self)@ == old(self)@
                },
            },
    {
        let id: u64 = self.next_id;
        self.next_id = if id == u64::MAX {
            0
        } else {
            id + 1
        };
        let mut text: Vec<u8> = Vec::new();
        put_prefix(&mut text);
        put_decimal(&mut text, id);
        assert(text@ =~= listener_text(id));
        match Url::parse(text) {
            Some(url) => {
                self.live.push(id);
                proof {
                    let before = old(self).live@;
                    assert(self.live@ =~= before.push(id));
                    assert forall|x: u64|
                        self@.contains(x) == old(self)@.insert(id).contains(x) by {
                        if self@.contains(x) {
                            let j = choose|j: int| 0 <= j < self.live@.len() && self.live@[j] == x;
                            if j < before.len() {
                                assert(before[j] == x);
                                assert(before.contains(x));
                            }
                        }
                        if old(self)@.contains(x) {
                            let j = choose|j: int| 0 <= j < before.len() && before[j] == x;
                            assert(self.live@[j] == x);
                        }
                        assert(self.live@[before.len() as int] == id);
                    }
                    assert(self@ =~= old(self)@.insert(id));
                }
                Some(Listener { id, url })
            },
            None => None,
        }
    }

    /// Removes a listener.
    pub fn remove(&mut self, id: u64)
        ensures
            final(self)@ == old(self)@.remove(id),
            final(self).next_id == old(self).next_id,
    {
        let mut kept: Vec<u64> = Vec::new();
        let mut i: usize = 0;
        assert(kept@.to_set() =~= self.live@.take(0).to_set().remove(id));
        while i < self.live.len()
            invariant
                i <= self.live@.len(),
                self.live == old(self).live,
                self.next_id == old(self).next_id,
                kept@.to_set() == self.live@.take(i as int).to_set().remove(id),
            decreases self.live@.len() - i,
        {
            let ghost before = kept@;
            let ghost seen = self.live@.take(i as int);
            let x: u64 = self.live[i];
            if x != id {
                kept.push(x);
            }
            proof {
                lemma_push_set(seen, x);
                lemma_push_set(before, x);
                assert(self.live@.take(i + 1) =~= seen.push(x));
                assert(kept@.to_set() =~= self.live@.take(i + 1).to_set().remove(id));
            }
            i = i + 1;
        }
        assert(self.live@.take(i as int) =~= self.live@);
        self.live = kept;
    }

    /// Decides how a message reaches a peer.
    pub fn connect(&self, pool: &ByteTable<u64>, to_peer: &Url) -> (way: Route)
        requires
            pool.wf(),
        ensures
            way == route(pool@, self@, to_peer@),
    {
        if let Some(open_connection) = pool.get(to_peer.as_bytes()) {
            return Route::Open(open_connection);
        }
        match to_peer.peer_id() {
            Some(id) => match parse_u64(&id) {
                Some(id) => {
                    if self.contains(id) {
                        Route::Dial(id)
                    } else {
                        Route::Nowhere
                    }
                },
                None => Route::Nowhere,
            },
            None => Route::Nowhere,
        }
    }
}

proof fn lemma_push_set(list: Seq<u64>, x: u64)
    ensures
        list.push(x).to_set() == list.to_set().insert(x),
{
    let longer = list.push(x);
    assert forall|y: u64| longer.to_set().contains(y) == list.to_set().insert(x).contains(y) by {
        if longer.contains(y) {
            let j = choose|j: int| 0 <= j < longer.len() && longer[j] == y;
            if j < list.len() {
                assert(list[j] == y);
            }
        }
        if list.contains(y) {
            let j = choose|j: int| 0 <= j < list.len() && list[j] == y;
            assert(longer[j] == y);
        }
        assert(longer[list.len() as int] == x);
    }
    assert(longer.to_set() =~= list.to_set().insert(x));
}

proof fn lemma_no_slash(text: Seq<u8>, head: Seq<u8>)
    requires
        decimal::all_digits(text),
        head.len() > 0,
        head.last() == url::SLASH,
    ensures
        url::behind_last_slash(head + text) == Some(text),
    decreases text.len(),
{
    let all = head + text;
    if text.len() == 0 {
        assert(all =~= head);
        assert(text =~= Seq::<u8>::empty());
    } else {
        let shorter = text.drop_last();
        assert forall|i: int| 0 <= i < shorter.len() implies decimal::is_digit(
            #[trigger] shorter[i],
        ) by {
            assert(shorter[i] == text[i]);
        }
        lemma_no_slash(shorter, head);
        assert(all.drop_last() =~= head + shorter);
        assert(decimal::is_digit(text[text.len() - 1]));
        assert(shorter.push(text.last()) =~= text);
    }
}

/// A listener's URL leads back to the listener.
pub proof fn law_listener_url_names_the_listener(id: u64)
    ensures
        listener_named(listener_text(id)) == Some(id),
{
    decimal::law_decimal_round_trip(id);
    let digits = decimal::decimal(id as nat);
    let text = listener_text(id);
    let rest = text.skip(5);
    assert(url::behind_scheme(text) == Some(rest)) by {
        assert(text.drop_first().drop_first().skip(3) =~= rest);
        reveal_with_fuel(url::behind_scheme, 3);
    }
    let head = listener_prefix().skip(5);
    assert(rest =~= head + digits);
    lemma_no_slash(digits, head);
}

/// While ids have not run out, a new listener gets an id that no listener has.
pub proof fn law_listener_ids_are_fresh(live: Set<u64>, next_id: u64)
    requires
        forall|id: u64| #[trigger] live.contains(id) ==> id < next_id,
        next_id < u64::MAX,
    ensures
        !live.contains(next_id),
        forall|id: u64| #[trigger] live.insert(next_id).contains(id) ==> id < next_id + 1,
{
}

/// A new listener can be dialled under its URL by every peer that has no
/// connection to it yet, until it is removed.
pub proof fn law_listeners_can_be_dialled(pool: Map<Seq<u8>, u64>, live: Set<u64>, id: u64)
    requires
        !pool.contains_key(listener_text(id)),
    ensures
        route(pool, live.insert(id), listener_text(id)) == Route::Dial(id),
        route(pool, live.remove(id), listener_text(id)) == Route::Nowhere,
{
    law_listener_url_names_the_listener(id);
}

/// A message for a peer with an open connection goes over that, whichever
/// listeners there are. Without one it goes to the listener that the URL names,
/// if that exists, and nowhere otherwise.
pub proof fn law_routes(pool: Map<Seq<u8>, u64>, live: Set<u64>, text: Seq<u8>)
    ensures
        pool.contains_key(text) ==> route(pool, live, text) == Route::Open(pool[text]),
        !pool.contains_key(text) ==> {
            &&& !(route(pool, live, text) is Open)
            &&& route(pool, live, text) matches Route::Dial(id) ==> live.contains(id)
                && listener_named(text) == Some(id)
            &&& route(pool, live, text) is Nowhere ==> (listener_named(text) matches Some(id)
                ==> !live.contains(id))
        },
{
}

/// A URL names the listener whose number stands behind its last slash.
pub proof fn law_urls_name_listeners_by_number(scheme: Seq<u8>, host: Seq<u8>, id: u64)
    requires
        forall|i: int| 0 <= i < scheme.len() ==> #[trigger] scheme[i] != 58,
    ensures
        listener_named(
            scheme + seq![58u8, 47u8, 47u8] + host + seq![47u8] + decimal::decimal(id as nat),
        ) == Some(id),
{
    decimal::law_decimal_round_trip(id);
    let digits = decimal::decimal(id as nat);
    let text = scheme + seq![58u8, 47u8, 47u8] + host + seq![47u8] + digits;
    assert(text =~= scheme + seq![58u8, 47u8, 47u8] + (host + seq![47u8] + digits));
    assert forall|i: int| 0 <= i < digits.len() implies #[trigger] digits[i] != 47 by {
        assert(decimal::is_digit(digits[i]));
    }
    url::law_peer_ids(scheme, host, digits);
}

} // verus!
