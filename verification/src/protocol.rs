//! Wire format of the sharding module's messages.
//!
//! A message is a list of fields, each a key followed by its contents. The key
//! holds the field's number and the shape of its contents: an integer, a fixed
//! number of bytes, or a length and that many bytes.

use crate::varint;
use vstd::prelude::*;
use vstd::slice::slice_subrange;

verus! {

/// The announcement of a shrink.
#[derive(Debug)]
pub struct K2ShardingShrinkIntentMessage {
    /// The agent that intends to shrink.
    pub agent_id: Vec<u8>,
    /// The first location that would be vacated.
    pub vacate_start: u32,
    /// The last location that would be vacated.
    pub vacate_end: u32,
    /// When the announcement is void, in microseconds.
    pub expires_at_us: i64,
}

/// A [`K2ShardingShrinkIntentMessage`] with its id as a sequence of bytes.
pub struct IntentMessageView {
    pub agent_id: Seq<u8>,
    pub vacate_start: u32,
    pub vacate_end: u32,
    pub expires_at_us: i64,
}

impl View for K2ShardingShrinkIntentMessage {
    type V = IntentMessageView;

    open spec fn view(&self) -> IntentMessageView {
        IntentMessageView {
            agent_id: self.agent_id@,
            vacate_start: self.vacate_start,
            vacate_end: self.vacate_end,
            expires_at_us: self.expires_at_us,
        }
    }
}

/// What a sharding message says.
#[derive(Debug)]
pub enum Msg {
    /// A shrink is announced.
    ShrinkIntent(K2ShardingShrinkIntentMessage),
}

/// A message of the sharding module.
#[derive(Debug)]
pub struct K2ShardingMessage {
    /// What the message says, if it says anything that is known here.
    pub msg: Option<Msg>,
}

impl View for K2ShardingMessage {
    type V = Option<IntentMessageView>;

    open spec fn view(&self) -> Option<IntentMessageView> {
        match self.msg {
            Some(Msg::ShrinkIntent(intent)) => Some(intent@),
            None => None,
        }
    }
}

/// Why a sharding message was refused.
#[derive(Clone, Copy, Debug, PartialEq, Eq, Structural)]
pub enum ShardingError {
    /// The bytes are not a sharding message.
    BadMessage,
}

impl ShardingError {
    /// What went wrong, in words.
    pub fn describe(&self) -> (text: &'static str)
        ensures
            text@ == "Failed to deserialize sharding message"@,
    {
        "Failed to deserialize sharding message"
    }
}

/// The contents of a field hold one integer.
pub const WIRE_VARINT: u64 = 0;

/// The contents of a field are a length and that many bytes.
pub const WIRE_BYTES: u64 = 2;

/// The key of the field of a message that holds a shrink intent.
pub const SHRINK_INTENT_KEY: u64 = 10;

/// The key of an intent's agent.
pub const AGENT_ID_KEY: u64 = 10;

/// The key of an intent's first vacated location.
pub const VACATE_START_KEY: u64 = 16;

/// The key of an intent's last vacated location.
pub const VACATE_END_KEY: u64 = 24;

/// The key of an intent's expiry.
pub const EXPIRES_AT_KEY: u64 = 32;

// ---------------------------------------------------------------------------
// Writing.

/// A signed integer as the unsigned one with the same bits.
pub open spec fn unsigned(n: i64) -> nat {
    if n >= 0 {
        n as nat
    } else {
        (0x1_0000_0000_0000_0000 + n) as nat
    }
}

/// A field that holds an integer; zero is left out.
pub open spec fn int_field(key: nat, n: nat) -> Seq<u8> {
    if n == 0 {
        Seq::empty()
    } else {
        varint::varint(key) + varint::varint(n)
    }
}

/// A field that holds bytes.
pub open spec fn chunk(key: nat, bytes: Seq<u8>) -> Seq<u8> {
    varint::varint(key) + varint::varint(bytes.len()) + bytes
}

/// A field that holds bytes; an empty one is left out.
pub open spec fn bytes_field(key: nat, bytes: Seq<u8>) -> Seq<u8> {
    if bytes.len() == 0 {
        Seq::empty()
    } else {
        chunk(key, bytes)
    }
}

/// The bytes of a shrink intent.
pub open spec fn intent_bytes(intent: IntentMessageView) -> Seq<u8> {
    bytes_field(AGENT_ID_KEY as nat, intent.agent_id) + int_field(
        VACATE_START_KEY as nat,
        intent.vacate_start as nat,
    ) + int_field(VACATE_END_KEY as nat, intent.vacate_end as nat) + int_field(
        EXPIRES_AT_KEY as nat,
        unsigned(intent.expires_at_us),
    )
}

/// The bytes of a message.
pub open spec fn message_bytes(msg: Option<IntentMessageView>) -> Seq<u8> {
    match msg {
        Some(intent) => chunk(SHRINK_INTENT_KEY as nat, intent_bytes(intent)),
        None => Seq::empty(),
    }
}

fn put_bytes(out: &mut Vec<u8>, bytes: &Vec<u8>)
    ensures
        final(out)@ == old(out)@ + bytes@,
{
    let mut i: usize = 0;
    assert(out@ =~= old(out)@ + bytes@.take(0));
    while i < bytes.len()
        invariant
            i <= bytes@.len(),
            out@ == old(out)@ + bytes@.take(i as int),
        decreases bytes@.len() - i,
    {
        out.push(bytes[i]);
        i = i + 1;
        assert(out@ =~= old(out)@ + bytes@.take(i as int));
    }
    assert(bytes@.take(i as int) =~= bytes@);
}

fn put_chunk(out: &mut Vec<u8>, key: u64, bytes: &Vec<u8>)
    ensures
        final(out)@ == old(out)@ + chunk(key as nat, bytes@),
{
    varint::encode_varint(key, out);
    varint::encode_varint(bytes.len() as u64, out);
    put_bytes(out, bytes);
    assert(out@ =~= old(out)@ + chunk(key as nat, bytes@));
}

fn put_int(out: &mut Vec<u8>, key: u64, n: u64)
    ensures
        final(out)@ == old(out)@ + int_field(key as nat, n as nat),
{
    if n != 0 {
        varint::encode_varint(key, out);
        varint::encode_varint(n, out);
    }
    assert(out@ =~= old(out)@ + int_field(key as nat, n as nat));
}

fn to_unsigned(n: i64) -> (bits: u64)
    ensures
        bits == unsigned(n),
{
    if n >= 0 {
        n as u64
    } else {
        u64::MAX - ((-(n + 1)) as u64)
    }
}

fn intent_to_bytes(intent: &K2ShardingShrinkIntentMessage) -> (out: Vec<u8>)
    ensures
        out@ == intent_bytes(intent@),
{
    let mut out: Vec<u8> = Vec::new();
    if intent.agent_id.len() > 0 {
        put_chunk(&mut out, AGENT_ID_KEY, &intent.agent_id);
    }
    assert(out@ =~= bytes_field(AGENT_ID_KEY as nat, intent.agent_id@));
    put_int(&mut out, VACATE_START_KEY, intent.vacate_start as u64);
    put_int(&mut out, VACATE_END_KEY, intent.vacate_end as u64);
    put_int(&mut out, EXPIRES_AT_KEY, to_unsigned(intent.expires_at_us));
    out
}

/// Serializes a sharding message.
pub fn serialize_sharding_message(value: K2ShardingMessage) -> (out: Vec<u8>)
    ensures
        out@ == message_bytes(value@),
{
    let mut out: Vec<u8> = Vec::new();
    match &value.msg {
        Some(Msg::ShrinkIntent(intent)) => {
            let bytes = intent_to_bytes(intent);
            put_chunk(&mut out, SHRINK_INTENT_KEY, &bytes);
            assert(out@ =~= message_bytes(value@));
        },
        None => {},
    }
    out
}

// ---------------------------------------------------------------------------
// Reading.

/// The bits of an unsigned integer read as a signed one.
pub open spec fn signed(n: nat) -> int {
    if n < 0x8000_0000_0000_0000 {
        n as int
    } else {
        n - 0x1_0000_0000_0000_0000
    }
}

/// A field's key: its number, its shape, and how many bytes the key takes.
pub open spec fn read_key(bytes: Seq<u8>) -> Option<(nat, nat, nat)> {
    match varint::read_varint(bytes) {
        Some((key, used)) => if key <= u32::MAX && key % 8 <= 5 && key / 8 >= 1 {
            Some((key / 8, key % 8, used))
        } else {
            None
        },
        None => None,
    }
}

/// A length, that many bytes, and what follows them.
pub open spec fn read_chunk(bytes: Seq<u8>) -> Option<(Seq<u8>, Seq<u8>)> {
    match varint::read_varint(bytes) {
        Some((n, used)) => if n <= bytes.len() - used {
            Some((bytes.subrange(used as int, (used + n) as int), bytes.skip((used + n) as int)))
        } else {
            None
        },
        None => None,
    }
}

/// What `prost::encoding::skip_field` leaves of the bytes behind the start of
/// a group, up to and with the end of the group with the same number.
pub uninterp spec fn group_left(tag: u32, bytes: Seq<u8>) -> Option<nat>;

/// Whether `prost::encoding::message::merge` finds a nested message of fields
/// at the front of the bytes.
pub uninterp spec fn nested_fields(bytes: Seq<u8>) -> bool;

/// How many bytes are left behind the contents of a field that is passed over.
pub open spec fn skip_left(shape: nat, tag: nat, bytes: Seq<u8>) -> Option<nat> {
    if shape == 0 {
        match varint::read_varint(bytes) {
            Some((_, used)) => Some((bytes.len() - used) as nat),
            None => None,
        }
    } else if shape == 1 {
        if bytes.len() >= 8 {
            Some((bytes.len() - 8) as nat)
        } else {
            None
        }
    } else if shape == 2 {
        match read_chunk(bytes) {
            Some((_, rest)) => Some(rest.len()),
            None => None,
        }
    } else if shape == 3 {
        match group_left(tag as u32, bytes) {
            Some(left) => if left <= bytes.len() {
                Some(left)
            } else {
                None
            },
            None => None,
        }
    } else if shape == 5 {
        if bytes.len() >= 4 {
            Some((bytes.len() - 4) as nat)
        } else {
            None
        }
    } else {
        None
    }
}

/// A list of fields without groups.
pub open spec fn plain_fields(bytes: Seq<u8>) -> bool
    decreases bytes.len(),
{
    proof {
        varint::lemma_varint_end(bytes);
    }
    if bytes.len() == 0 {
        true
    } else {
        match read_key(bytes) {
            Some((tag, shape, used)) => {
                let body = bytes.skip(used as int);
                shape != 3 && match skip_left(shape, tag, body) {
                    Some(left) => left <= body.len() && plain_fields(
                        body.skip(body.len() - left),
                    ),
                    None => false,
                }
            },
            None => false,
        }
    }
}

/// Calls `prost::encoding::skip_field` with a fresh context on the contents of
/// a field. The shapes are an integer, eight bytes, a length with that many
/// bytes, a group, the stray end of a group, which is refused, and four bytes.
/// It returns how many bytes are left, or nothing where the contents are cut
/// short or malformed. Of a group the contract says only that the outcome
/// depends on its number and the bytes, and that what is left is not longer
/// than what was given.
#[verifier::external_body]
fn skip_field(shape: u8, tag: u32, bytes: &[u8]) -> (left: Option<usize>)
    requires
        shape <= 5,
    ensures
        shape != 3 ==> match skip_left(shape as nat, tag as nat, bytes@) {
            Some(n) => left matches Some(l) && l == n,
            None => left is None,
        },
        shape == 3 ==> match group_left(tag, bytes@) {
            Some(n) => left matches Some(l) && l == n && l <= bytes@.len(),
            None => left is None,
        },
{
    let mut buf = bytes;
    let shape = prost::encoding::WireType::try_from(shape as u64).ok()?;
    prost::encoding::skip_field(shape, tag, &mut buf, Default::default()).ok()?;
    Some(buf.len())
}

/// Calls `prost::encoding::message::merge` for the message without fields of
/// its own: it reads a length and then passes over one field after the other,
/// one level below the outermost message, until that many bytes are read. It
/// fails where a field is malformed, reaches beyond the length, or nests groups
/// too deep. The contract names the outcome, and states that a list of
/// well-formed fields without groups is accepted.
#[verifier::external_body]
fn accepts_nested_fields(bytes: &[u8]) -> (ok: bool)
    ensures
        ok == nested_fields(bytes@),
        (read_chunk(bytes@) matches Some((inner, _)) && plain_fields(inner)) ==> ok,
{
    let mut buf = bytes;
    let bytes_shape = prost::encoding::WireType::LengthDelimited;
    prost::encoding::message::merge(bytes_shape, &mut (), &mut buf, Default::default()).is_ok()
}

/// The intent with every field unset.
pub open spec fn blank_intent() -> IntentMessageView {
    IntentMessageView {
        agent_id: Seq::empty(),
        vacate_start: 0,
        vacate_end: 0,
        expires_at_us: 0,
    }
}

/// One field of an intent taken into account, and the bytes behind it. A known
/// field must have its shape and replaces what was there; an integer keeps its
/// lowest bits. An unknown field is passed over.
pub open spec fn intent_step(bytes: Seq<u8>, intent: IntentMessageView) -> Option<
    (IntentMessageView, Seq<u8>),
> {
    match read_key(bytes) {
        Some((tag, shape, used)) => {
            let body = bytes.skip(used as int);
            if tag == 1 {
                match read_chunk(body) {
                    Some((id, rest)) if shape == WIRE_BYTES => Some(
                        (IntentMessageView { agent_id: id, ..intent }, rest),
                    ),
                    _ => None,
                }
            } else if tag == 2 || tag == 3 || tag == 4 {
                match varint::read_varint(body) {
                    Some((n, n_used)) if shape == WIRE_VARINT => {
                        let rest = body.skip(n_used as int);
                        if tag == 2 {
                            Some(
                                (
                                    IntentMessageView {
                                        vacate_start: (n % 0x1_0000_0000) as u32,
                                        ..intent
                                    },
                                    rest,
                                ),
                            )
                        } else if tag == 3 {
                            Some(
                                (
                                    IntentMessageView {
                                        vacate_end: (n % 0x1_0000_0000) as u32,
                                        ..intent
                                    },
                                    rest,
                                ),
                            )
                        } else {
                            Some(
                                (
                                    IntentMessageView { expires_at_us: signed(n) as i64, ..intent },
                                    rest,
                                ),
                            )
                        }
                    },
                    _ => None,
                }
            } else {
                match skip_left(shape, tag, body) {
                    Some(left) => Some((intent, body.skip(body.len() - left))),
                    None => None,
                }
            }
        },
        None => None,
    }
}

/// The intent that a list of fields makes of a given one.
pub open spec fn read_intent(bytes: Seq<u8>, intent: IntentMessageView) -> Option<IntentMessageView>
    decreases bytes.len(),
{
    proof {
        lemma_intent_step_shrinks(bytes, intent);
    }
    if bytes.len() == 0 {
        Some(intent)
    } else {
        match intent_step(bytes, intent) {
            Some((next, rest)) => read_intent(rest, next),
            None => None,
        }
    }
}

/// One field of a message taken into account, and the bytes behind it. A
/// second intent is read on top of the first.
pub open spec fn message_step(bytes: Seq<u8>, msg: Option<IntentMessageView>) -> Option<
    (Option<IntentMessageView>, Seq<u8>),
> {
    match read_key(bytes) {
        Some((tag, shape, used)) => {
            let body = bytes.skip(used as int);
            if tag == 1 {
                match read_chunk(body) {
                    Some((inner, rest)) if shape == WIRE_BYTES && nested_fields(body) => {
                        let start = match msg {
                            Some(intent) => intent,
                            None => blank_intent(),
                        };
                        match read_intent(inner, start) {
                            Some(intent) => Some((Some(intent), rest)),
                            None => None,
                        }
                    },
                    _ => None,
                }
            } else {
                match skip_left(shape, tag, body) {
                    Some(left) => Some((msg, body.skip(body.len() - left))),
                    None => None,
                }
            }
        },
        None => None,
    }
}

/// The message that a list of fields makes of a given one.
pub open spec fn read_message(bytes: Seq<u8>, msg: Option<IntentMessageView>) -> Option<
    Option<IntentMessageView>,
>
    decreases bytes.len(),
{
    proof {
        lemma_message_step_shrinks(bytes, msg);
    }
    if bytes.len() == 0 {
        Some(msg)
    } else {
        match message_step(bytes, msg) {
            Some((next, rest)) => read_message(rest, next),
            None => None,
        }
    }
}

pub proof fn lemma_read_bounds(bytes: Seq<u8>)
    ensures
        varint::read_varint(bytes) matches Some((_, used)) ==> 0 < used <= bytes.len(),
        read_key(bytes) matches Some((_, _, used)) ==> 0 < used <= bytes.len(),
        read_chunk(bytes) matches Some((inner, rest)) ==> inner.len() + rest.len() < bytes.len(),
{
    varint::lemma_varint_end(bytes);
}

pub proof fn lemma_skip_bounds(shape: nat, tag: nat, bytes: Seq<u8>)
    ensures
        skip_left(shape, tag, bytes) matches Some(left) ==> left <= bytes.len(),
{
    lemma_read_bounds(bytes);
}

pub proof fn lemma_intent_step_shrinks(bytes: Seq<u8>, intent: IntentMessageView)
    ensures
        intent_step(bytes, intent) matches Some((_, rest)) ==> rest.len() < bytes.len(),
{
    lemma_read_bounds(bytes);
    if let Some((tag, shape, used)) = read_key(bytes) {
        let body = bytes.skip(used as int);
        lemma_read_bounds(body);
        lemma_skip_bounds(shape, tag, body);
    }
}

pub proof fn lemma_message_step_shrinks(bytes: Seq<u8>, msg: Option<IntentMessageView>)
    ensures
        message_step(bytes, msg) matches Some((_, rest)) ==> rest.len() < bytes.len(),
{
    lemma_read_bounds(bytes);
    if let Some((tag, shape, used)) = read_key(bytes) {
        let body = bytes.skip(used as int);
        lemma_read_bounds(body);
        lemma_skip_bounds(shape, tag, body);
    }
}

fn copy_slice(bytes: &[u8]) -> (copy: Vec<u8>)
    ensures
        copy@ == bytes@,
{
    let mut copy: Vec<u8> = Vec::new();
    let mut i: usize = 0;
    while i < bytes.len()
        invariant
            i <= bytes@.len(),
            copy@ == bytes@.take(i as int),
        decreases bytes@.len() - i,
    {
        copy.push(bytes[i]);
        i = i + 1;
        assert(bytes@.take(i as int) =~= bytes@.take(i - 1).push(bytes@[i - 1]));
    }
    assert(bytes@.take(i as int) =~= bytes@);
    copy
}

/// The last bytes of a slice.
fn tail(bytes: &[u8], left: usize) -> (rest: &[u8])
    requires
        left <= bytes@.len(),
    ensures
        rest@ == bytes@.skip(bytes@.len() - left),
{
    let rest = slice_subrange(bytes, bytes.len() - left, bytes.len());
    assert(rest@ =~= bytes@.skip(bytes@.len() - left));
    rest
}

fn take_key(bytes: &[u8]) -> (out: Option<(u32, u8, &[u8])>)
    ensures
        match read_key(bytes@) {
            Some((tag, shape, used)) => out matches Some((t, s, body)) && t == tag && s == shape
                && body@ == bytes@.skip(used as int),
            None => out is None,
        },
{
    proof {
        lemma_read_bounds(bytes@);
    }
    match varint::decode_varint(bytes) {
        Some((key, left)) => {
            if key <= u32::MAX as u64 && key % 8 <= 5 && key / 8 >= 1 {
                Some(((key / 8) as u32, (key % 8) as u8, tail(bytes, left)))
            } else {
                None
            }
        },
        None => None,
    }
}

fn take_chunk(bytes: &[u8]) -> (out: Option<(&[u8], &[u8])>)
    ensures
        match read_chunk(bytes@) {
            Some((inner, rest)) => out matches Some((i, r)) && i@ == inner && r@ == rest,
            None => out is None,
        },
{
    proof {
        lemma_read_bounds(bytes@);
    }
    match varint::decode_varint(bytes) {
        Some((n, left)) => {
            if n <= left as u64 {
                let start: usize = bytes.len() - left;
                let end: usize = start + n as usize;
                let inner = slice_subrange(bytes, start, end);
                let rest = slice_subrange(bytes, end, bytes.len());
                assert(rest@ =~= bytes@.skip(end as int));
                Some((inner, rest))
            } else {
                None
            }
        },
        None => None,
    }
}

fn pass_over(shape: u8, tag: u32, body: &[u8]) -> (out: Option<&[u8]>)
    requires
        shape <= 5,
    ensures
        match skip_left(shape as nat, tag as nat, body@) {
            Some(left) => out matches Some(rest) && rest@ == body@.skip(body@.len() - left),
            None => out is None,
        },
{
    proof {
        lemma_skip_bounds(shape as nat, tag as nat, body@);
    }
    match skip_field(shape, tag, body) {
        Some(left) => Some(tail(body, left)),
        None => None,
    }
}

fn to_signed(n: u64) -> (v: i64)
    ensures
        v == signed(n as nat),
{
    if n <= i64::MAX as u64 {
        n as i64
    } else {
        -((u64::MAX - n) as i64) - 1
    }
}

fn low_half(n: u64) -> (v: u32)
    ensures
        v == n as nat % 0x1_0000_0000,
{
    (n % 0x1_0000_0000) as u32
}

fn take_intent_field(bytes: &[u8], intent: K2ShardingShrinkIntentMessage) -> (out: Option<
    (K2ShardingShrinkIntentMessage, &[u8]),
>)
    ensures
        match intent_step(bytes@, intent@) {
            Some((next, rest)) => out matches Some((n, r)) && n@ == next && r@ == rest,
            None => out is None,
        },
{
    let mut intent = intent;
    match take_key(bytes) {
        Some((tag, shape, body)) => {
            if tag == 1 {
                if shape as u64 != WIRE_BYTES {
                    return None;
                }
                match take_chunk(body) {
                    Some((id, rest)) => {
                        intent.agent_id = copy_slice(id);
                        Some((intent, rest))
                    },
                    None => None,
                }
            } else if tag == 2 || tag == 3 || tag == 4 {
                if shape as u64 != WIRE_VARINT {
                    return None;
                }
                proof {
                    lemma_read_bounds(body@);
                }
                match varint::decode_varint(body) {
                    Some((n, left)) => {
                        if tag == 2 {
                            intent.vacate_start = low_half(n);
                        } else if tag == 3 {
                            intent.vacate_end = low_half(n);
                        } else {
                            intent.expires_at_us = to_signed(n);
                        }
                        Some((intent, tail(body, left)))
                    },
                    None => None,
                }
            } else {
                match pass_over(shape, tag, body) {
                    Some(rest) => Some((intent, rest)),
                    None => None,
                }
            }
        },
        None => None,
    }
}

/// Reads the fields of an intent on top of a given one, up to the end of the
/// bytes.
pub fn merge_intent(bytes: &[u8], intent: K2ShardingShrinkIntentMessage) -> (out: Option<
    K2ShardingShrinkIntentMessage,
>)
    ensures
        match read_intent(bytes@, intent@) {
            Some(read) => out matches Some(o) && o@ == read,
            None => out is None,
        },
{
    let mut read = intent;
    let mut rest: &[u8] = bytes;
    while rest.len() > 0
        invariant
            read_intent(bytes@, intent@) == read_intent(rest@, read@),
        decreases rest@.len(),
    {
        proof {
            lemma_intent_step_shrinks(rest@, read@);
        }
        match take_intent_field(rest, read) {
            Some((next, left)) => {
                read = next;
                rest = left;
            },
            None => {
                return None;
            },
        }
    }
    Some(read)
}

/// Reading an integer field back, with what follows it.
proof fn lemma_int_field(key: u64, n: u64, rest: Seq<u8>)
    requires
        key % 8 == 0,
        8 <= key < 128,
        n != 0,
    ensures
        ({
            let bytes = int_field(key as nat, n as nat) + rest;
            let body = varint::varint(n as nat) + rest;
            &&& read_key(bytes) == Some((key as nat / 8, 0nat, 1nat))
            &&& bytes.skip(1) == body
            &&& bytes.len() > 0
            &&& varint::read_varint(body) == Some((n as nat, varint::varint(n as nat).len()))
            &&& body.skip(varint::varint(n as nat).len() as int) == rest
        }),
{
    let bytes = int_field(key as nat, n as nat) + rest;
    let body = varint::varint(n as nat) + rest;
    assert(bytes =~= varint::varint(key as nat) + body);
    varint::law_varint_round_trip(key, body);
    varint::law_varint_round_trip(n, rest);
    assert(varint::varint(key as nat).len() == 1);
    assert(bytes.skip(1) =~= body);
    assert(body.skip(varint::varint(n as nat).len() as int) =~= rest);
}

/// Reading a field of bytes back, with what follows it.
proof fn lemma_chunk(key: u64, inner: Seq<u8>, rest: Seq<u8>)
    requires
        key % 8 == 2,
        8 <= key < 128,
        inner.len() <= u64::MAX,
    ensures
        ({
            let bytes = chunk(key as nat, inner) + rest;
            let body = varint::varint(inner.len()) + inner + rest;
            &&& read_key(bytes) == Some((key as nat / 8, 2nat, 1nat))
            &&& bytes.skip(1) == body
            &&& bytes.len() > 0
            &&& read_chunk(body) == Some((inner, rest))
        }),
{
    let bytes = chunk(key as nat, inner) + rest;
    let body = varint::varint(inner.len()) + inner + rest;
    assert(bytes =~= varint::varint(key as nat) + body);
    varint::law_varint_round_trip(key, body);
    assert(varint::varint(key as nat).len() == 1);
    assert(bytes.skip(1) =~= body);
    assert(body =~= varint::varint(inner.len()) + (inner + rest));
    varint::law_varint_round_trip(inner.len() as u64, inner + rest);
    let used = varint::varint(inner.len()).len();
    assert(body.subrange(used as int, (used + inner.len()) as int) =~= inner);
    assert(body.skip((used + inner.len()) as int) =~= rest);
}

proof fn lemma_plain_int(key: u64, n: u64, rest: Seq<u8>)
    requires
        key % 8 == 0,
        8 <= key < 128,
        plain_fields(rest),
    ensures
        plain_fields(int_field(key as nat, n as nat) + rest),
{
    if n == 0 {
        assert(int_field(key as nat, n as nat) + rest =~= rest);
    } else {
        lemma_int_field(key, n, rest);
        let body = varint::varint(n as nat) + rest;
        assert(body.skip(body.len() - rest.len()) =~= rest);
    }
}

proof fn lemma_read_int(key: u64, n: u64, rest: Seq<u8>, intent: IntentMessageView)
    requires
        key == VACATE_START_KEY && intent.vacate_start == 0 && n <= u32::MAX || key
            == VACATE_END_KEY && intent.vacate_end == 0 && n <= u32::MAX || key == EXPIRES_AT_KEY
            && intent.expires_at_us == 0,
    ensures
        read_intent(int_field(key as nat, n as nat) + rest, intent) == read_intent(
            rest,
            if key == VACATE_START_KEY {
                IntentMessageView { vacate_start: n as u32, ..intent }
            } else if key == VACATE_END_KEY {
                IntentMessageView { vacate_end: n as u32, ..intent }
            } else {
                IntentMessageView { expires_at_us: signed(n as nat) as i64, ..intent }
            },
        ),
{
    if n == 0 {
        assert(int_field(key as nat, n as nat) + rest =~= rest);
    } else {
        lemma_int_field(key, n, rest);
    }
}

/// Reading gives back the intent that was written.
proof fn lemma_read_intent(intent: IntentMessageView)
    requires
        intent_bytes(intent).len() <= u64::MAX,
    ensures
        read_intent(intent_bytes(intent), blank_intent()) == Some(intent),
        plain_fields(intent_bytes(intent)),
{
    let expires = unsigned(intent.expires_at_us) as u64;
    let f2 = int_field(VACATE_START_KEY as nat, intent.vacate_start as nat);
    let f3 = int_field(VACATE_END_KEY as nat, intent.vacate_end as nat);
    let f4 = int_field(EXPIRES_AT_KEY as nat, expires as nat);
    let none = Seq::<u8>::empty();
    let tail4 = f4 + none;
    let tail3 = f3 + tail4;
    let tail2 = f2 + tail3;
    lemma_plain_int(EXPIRES_AT_KEY, expires, none);
    lemma_plain_int(VACATE_END_KEY, intent.vacate_end as u64, tail4);
    lemma_plain_int(VACATE_START_KEY, intent.vacate_start as u64, tail3);
    let with_id = IntentMessageView { agent_id: intent.agent_id, ..blank_intent() };
    let with_start = IntentMessageView { vacate_start: intent.vacate_start, ..with_id };
    let with_end = IntentMessageView { vacate_end: intent.vacate_end, ..with_start };
    lemma_read_int(VACATE_START_KEY, intent.vacate_start as u64, tail3, with_id);
    lemma_read_int(VACATE_END_KEY, intent.vacate_end as u64, tail4, with_start);
    lemma_read_int(EXPIRES_AT_KEY, expires, none, with_end);
    assert(signed(expires as nat) == intent.expires_at_us);
    assert(read_intent(tail2, with_id) == Some(intent));
    if intent.agent_id.len() == 0 {
        assert(intent_bytes(intent) =~= tail2);
        assert(with_id.agent_id =~= blank_intent().agent_id);
    } else {
        assert(intent_bytes(intent) =~= chunk(AGENT_ID_KEY as nat, intent.agent_id) + tail2);
        lemma_chunk(AGENT_ID_KEY, intent.agent_id, tail2);
        let body = varint::varint(intent.agent_id.len()) + intent.agent_id + tail2;
        assert(body.skip(body.len() - tail2.len()) =~= tail2);
    }
}

/// A nested message of plain fields at the front of the bytes is accepted.
pub open spec fn plain_message_accepted(bytes: Seq<u8>) -> bool {
    read_key(bytes) matches Some((tag, shape, used)) ==> (tag == 1 && shape == WIRE_BYTES ==> (
    read_chunk(bytes.skip(used as int)) matches Some((inner, _)) ==> (plain_fields(inner)
        ==> nested_fields(bytes.skip(used as int)))))
}

/// Reading gives back the message that was written.
proof fn lemma_read_message(msg: Option<IntentMessageView>)
    requires
        message_bytes(msg).len() <= u64::MAX,
        plain_message_accepted(message_bytes(msg)),
    ensures
        read_message(message_bytes(msg), None) == Some(msg),
{
    if let Some(intent) = msg {
        let bytes = message_bytes(msg);
        let inner = intent_bytes(intent);
        let none = Seq::<u8>::empty();
        assert(bytes =~= chunk(SHRINK_INTENT_KEY as nat, inner) + none);
        lemma_chunk(SHRINK_INTENT_KEY, inner, none);
        lemma_read_intent(intent);
        assert(message_step(bytes, None) == Some((Some(intent), none)));
        assert(read_message(none, Some(intent)) == Some(Some(intent)));
    }
}

proof fn lemma_reads_back(bytes: Seq<u8>)
    requires
        bytes.len() <= u64::MAX,
        bytes.len() == 0 || plain_message_accepted(bytes),
    ensures
        forall|msg: Option<IntentMessageView>|
            bytes == #[trigger] message_bytes(msg) ==> read_message(bytes, None) == Some(msg),
{
    assert forall|msg: Option<IntentMessageView>| bytes == #[trigger] message_bytes(msg) implies
        read_message(bytes, None) == Some(msg) by {
        if bytes.len() > 0 {
            lemma_read_message(msg);
        } else if let Some(intent) = msg {
            varint::law_varint_round_trip(SHRINK_INTENT_KEY, Seq::empty());
        }
    }
}

fn take_message_field(bytes: &[u8], msg: Option<Msg>) -> (out: Option<(Option<Msg>, &[u8])>)
    ensures
        match message_step(bytes@, (K2ShardingMessage { msg })@) {
            Some((next, rest)) => out matches Some((n, r)) && (K2ShardingMessage { msg: n })@
                == next && r@ == rest,
            None => out is None,
        },
        plain_message_accepted(bytes@),
{
    match take_key(bytes) {
        Some((tag, shape, body)) => {
            if tag == 1 {
                if shape as u64 != WIRE_BYTES || !accepts_nested_fields(body) {
                    return None;
                }
                match take_chunk(body) {
                    Some((inner, rest)) => {
                        let start = match msg {
                            Some(Msg::ShrinkIntent(intent)) => intent,
                            None => {
                                let blank = K2ShardingShrinkIntentMessage {
                                    agent_id: Vec::new(),
                                    vacate_start: 0,
                                    vacate_end: 0,
                                    expires_at_us: 0,
                                };
                                assert(blank.agent_id@ =~= Seq::<u8>::empty());
                                blank
                            },
                        };
                        match merge_intent(inner, start) {
                            Some(intent) => Some((Some(Msg::ShrinkIntent(intent)), rest)),
                            None => None,
                        }
                    },
                    None => None,
                }
            } else {
                match pass_over(shape, tag, body) {
                    Some(rest) => Some((msg, rest)),
                    None => None,
                }
            }
        },
        None => None,
    }
}

/// Deserializes a sharding message. What was serialized comes back.
pub fn deserialize_sharding_message(value: &[u8]) -> (out: Result<K2ShardingMessage, ShardingError>)
    ensures
        match read_message(value@, None) {
            Some(msg) => out matches Ok(o) && o@ == msg,
            None => out == Err::<K2ShardingMessage, ShardingError>(ShardingError::BadMessage),
        },
        value@.len() > 0 ==> plain_message_accepted(value@),
        forall|msg: Option<IntentMessageView>|
            value@ == #[trigger] message_bytes(msg) ==> (out matches Ok(o) && o@ == msg),
{
    let mut msg: Option<Msg> = None;
    let mut rest: &[u8] = value;
    let total: usize = value.len();
    while rest.len() > 0
        invariant
            value@.len() == total,
            read_message(value@, None) == read_message(rest@, (K2ShardingMessage { msg })@),
            rest@ == value@ || value@.len() > 0 && plain_message_accepted(value@),
        decreases rest@.len(),
    {
        proof {
            lemma_message_step_shrinks(rest@, (K2ShardingMessage { msg })@);
        }
        match take_message_field(rest, msg) {
            Some((next, left)) => {
                msg = next;
                rest = left;
            },
            None => {
                proof {
                    lemma_reads_back(value@);
                }
                return Err(ShardingError::BadMessage);
            },
        }
    }
    proof {
        lemma_reads_back(value@);
    }
    Ok(K2ShardingMessage { msg })
}

/// The bytes of a message: the first field holds the intent, whose fields are in
/// order its agent, the two locations and the expiry as the 64-bit pattern of a
/// signed integer. Each key is one byte, eight times the number of the field and
/// its shape.
pub proof fn law_wire_format(intent: IntentMessageView)
    requires
        intent.agent_id.len() > 0,
        intent.vacate_start != 0,
        intent.vacate_end != 0,
        intent.expires_at_us != 0,
    ensures
        ({
            let pattern = if intent.expires_at_us >= 0 {
                intent.expires_at_us as nat
            } else {
                (intent.expires_at_us + 0x1_0000_0000_0000_0000) as nat
            };
            let inner = seq![10u8] + varint::varint(intent.agent_id.len()) + intent.agent_id
                + seq![16u8] + varint::varint(intent.vacate_start as nat) + seq![24u8]
                + varint::varint(intent.vacate_end as nat) + seq![32u8] + varint::varint(pattern);
            message_bytes(Some(intent)) == seq![10u8] + varint::varint(inner.len()) + inner
        }),
{
    let pattern = unsigned(intent.expires_at_us);
    let inner = seq![10u8] + varint::varint(intent.agent_id.len()) + intent.agent_id + seq![16u8]
        + varint::varint(intent.vacate_start as nat) + seq![24u8] + varint::varint(
        intent.vacate_end as nat,
    ) + seq![32u8] + varint::varint(pattern);
    assert(intent_bytes(intent) =~= inner);
}

/// A field with its default value is left out, and the others stay.
pub proof fn law_defaults_are_left_out(intent: IntentMessageView)
    ensures
        message_bytes(None) == Seq::<u8>::empty(),
        ({
            let blank = IntentMessageView {
                agent_id: Seq::empty(),
                vacate_start: 0,
                vacate_end: 0,
                expires_at_us: 0,
            };
            &&& intent_bytes(blank) == Seq::<u8>::empty()
            &&& intent_bytes(intent) == intent_bytes(
                IntentMessageView { agent_id: intent.agent_id, ..blank },
            ) + intent_bytes(
                IntentMessageView { vacate_start: intent.vacate_start, ..blank },
            ) + intent_bytes(
                IntentMessageView { vacate_end: intent.vacate_end, ..blank },
            ) + intent_bytes(IntentMessageView { expires_at_us: intent.expires_at_us, ..blank })
        }),
{
    let blank = IntentMessageView {
        agent_id: Seq::empty(),
        vacate_start: 0,
        vacate_end: 0,
        expires_at_us: 0,
    };
    assert(intent_bytes(blank) =~= Seq::<u8>::empty());
    assert(intent_bytes(intent) =~= intent_bytes(
        IntentMessageView { agent_id: intent.agent_id, ..blank },
    ) + intent_bytes(IntentMessageView { vacate_start: intent.vacate_start, ..blank })
        + intent_bytes(IntentMessageView { vacate_end: intent.vacate_end, ..blank })
        + intent_bytes(IntentMessageView { expires_at_us: intent.expires_at_us, ..blank }));
}

/// An intent that is written comes back.
pub proof fn law_intents_come_back(intent: IntentMessageView)
    requires
        intent_bytes(intent).len() <= u64::MAX,
    ensures
        read_intent(
            intent_bytes(intent),
            IntentMessageView {
                agent_id: Seq::empty(),
                vacate_start: 0,
                vacate_end: 0,
                expires_at_us: 0,
            },
        ) == Some(intent),
{
    lemma_read_intent(intent);
}

/// An integer field of an intent sets its value, in place of what was read
/// before: the second and third the lowest 32 bits of it, the fourth the signed
/// integer with its bits. One that is not known is passed over.
pub proof fn law_integer_fields_are_read(
    number: u64,
    n: u64,
    rest: Seq<u8>,
    intent: IntentMessageView,
)
    requires
        2 <= number < 16,
    ensures
        read_intent(
            seq![(number * 8) as u8] + varint::varint(n as nat) + rest,
            intent,
        ) == read_intent(
            rest,
            if number == 2 {
                IntentMessageView { vacate_start: (n % 0x1_0000_0000) as u32, ..intent }
            } else if number == 3 {
                IntentMessageView { vacate_end: (n % 0x1_0000_0000) as u32, ..intent }
            } else if number == 4 {
                IntentMessageView {
                    expires_at_us: (if n < 0x8000_0000_0000_0000 {
                        n as int
                    } else {
                        n - 0x1_0000_0000_0000_0000
                    }) as i64,
                    ..intent
                }
            } else {
                intent
            },
        ),
{
    let key: u64 = (number * 8) as u64;
    let body = varint::varint(n as nat) + rest;
    let bytes = seq![(number * 8) as u8] + varint::varint(n as nat) + rest;
    assert(varint::varint(key as nat) =~= seq![(number * 8) as u8]);
    assert(bytes =~= varint::varint(key as nat) + body);
    varint::law_varint_round_trip(key, body);
    varint::law_varint_round_trip(n, rest);
    assert(bytes.skip(1) =~= body);
    let used = varint::varint(n as nat).len();
    assert(body.skip(used as int) =~= rest);
    assert(body.skip(body.len() - rest.len()) =~= rest);
}

/// The first field of an intent sets its agent, in place of what was read
/// before.
pub proof fn law_the_agent_is_read(id: Seq<u8>, rest: Seq<u8>, intent: IntentMessageView)
    requires
        id.len() <= u64::MAX,
    ensures
        read_intent(seq![10u8] + varint::varint(id.len()) + id + rest, intent) == read_intent(
            rest,
            IntentMessageView { agent_id: id, ..intent },
        ),
{
    lemma_chunk(AGENT_ID_KEY, id, rest);
    assert(seq![10u8] + varint::varint(id.len()) + id + rest =~= chunk(AGENT_ID_KEY as nat, id)
        + rest);
}

/// A known field of another shape is refused, and so is a key without a number
/// or a shape.
pub proof fn law_odd_fields_are_refused(key: u8, rest: Seq<u8>, intent: IntentMessageView)
    requires
        key < 40,
        key % 8 != 0 || key < 16,
        key != 10,
    ensures
        read_intent(seq![key] + rest, intent) is None,
{
    let bytes = seq![key] + rest;
    assert(varint::varint(key as nat) =~= seq![key]);
    varint::law_varint_round_trip(key as u64, rest);
    assert(bytes.skip(1) =~= rest);
}

/// What is passed over of a field that is not known: an integer, eight bytes, a
/// length with that many bytes, or four bytes. The stray end of a group is
/// refused.
pub proof fn law_passing_over(tag: nat, n: u64, some: Seq<u8>, rest: Seq<u8>)
    requires
        some.len() <= u64::MAX,
    ensures
        skip_left(0, tag, varint::varint(n as nat) + rest) == Some(rest.len()),
        some.len() == 8 ==> skip_left(1, tag, some + rest) == Some(rest.len()),
        some.len() < 8 ==> skip_left(1, tag, some) is None,
        skip_left(2, tag, varint::varint(some.len()) + some + rest) == Some(rest.len()),
        skip_left(4, tag, rest) is None,
        some.len() == 4 ==> skip_left(5, tag, some + rest) == Some(rest.len()),
        some.len() < 4 ==> skip_left(5, tag, some) is None,
{
    varint::law_varint_round_trip(n, rest);
    lemma_chunk(AGENT_ID_KEY, some, rest);
}

/// A field of a message that is not known is passed over.
pub proof fn law_unknown_fields_of_a_message(
    number: u64,
    n: u64,
    some: Seq<u8>,
    rest: Seq<u8>,
    msg: Option<IntentMessageView>,
)
    requires
        2 <= number < 16,
        some.len() <= u64::MAX,
    ensures
        read_message(seq![(number * 8) as u8] + varint::varint(n as nat) + rest, msg)
            == read_message(rest, msg),
        read_message(
            seq![(number * 8 + 2) as u8] + varint::varint(some.len()) + some + rest,
            msg,
        ) == read_message(rest, msg),
{
    let key: u64 = (number * 8) as u64;
    let body = varint::varint(n as nat) + rest;
    let bytes = seq![(number * 8) as u8] + varint::varint(n as nat) + rest;
    assert(varint::varint(key as nat) =~= seq![(number * 8) as u8]);
    assert(bytes =~= varint::varint(key as nat) + body);
    varint::law_varint_round_trip(key, body);
    varint::law_varint_round_trip(n, rest);
    assert(bytes.skip(1) =~= body);
    assert(body.skip(body.len() - rest.len()) =~= rest);
    let other: u64 = (number * 8 + 2) as u64;
    let contents = varint::varint(some.len()) + some + rest;
    lemma_chunk(other, some, rest);
    assert(seq![(number * 8 + 2) as u8] + varint::varint(some.len()) + some + rest =~= chunk(
        other as nat,
        some,
    ) + rest);
    assert(contents.skip(contents.len() - rest.len()) =~= rest);
}

/// An intent in a message is read on top of what was read before, wherever its
/// fields are accepted as those of a nested message.
pub proof fn law_intents_are_read_on_top(
    inner: Seq<u8>,
    rest: Seq<u8>,
    msg: Option<IntentMessageView>,
)
    requires
        inner.len() <= u64::MAX,
        nested_fields(varint::varint(inner.len()) + inner + rest),
    ensures
        read_message(seq![10u8] + varint::varint(inner.len()) + inner + rest, msg) == match read_intent(
            inner,
            match msg {
                Some(intent) => intent,
                None => IntentMessageView {
                    agent_id: Seq::empty(),
                    vacate_start: 0,
                    vacate_end: 0,
                    expires_at_us: 0,
                },
            },
        ) {
            Some(intent) => read_message(rest, Some(intent)),
            None => None,
        },
{
    lemma_chunk(SHRINK_INTENT_KEY, inner, rest);
    assert(seq![10u8] + varint::varint(inner.len()) + inner + rest =~= chunk(
        SHRINK_INTENT_KEY as nat,
        inner,
    ) + rest);
}

} // verus!
