//! Variable-length integers: groups of seven bits, lowest first, each in a
//! byte whose top bit says whether another byte follows.

use vstd::prelude::*;

verus! {

/// The bytes of an integer.
pub open spec fn varint(n: nat) -> Seq<u8>
    decreases n,
{
    if n < 128 {
        seq![n as u8]
    } else {
        seq![(n % 128 + 128) as u8] + varint(n / 128)
    }
}

/// How many bytes the integer at the front of a byte string takes, if the
/// string holds the last of them.
pub open spec fn varint_end(bytes: Seq<u8>) -> Option<nat>
    decreases bytes.len(),
{
    if bytes.len() == 0 {
        None
    } else if bytes[0] < 128 {
        Some(1)
    } else {
        match varint_end(bytes.drop_first()) {
            Some(n) => Some(n + 1),
            None => None,
        }
    }
}

/// The integer that a group of bytes writes down.
pub open spec fn varint_value(bytes: Seq<u8>) -> nat
    decreases bytes.len(),
{
    if bytes.len() == 0 {
        0
    } else {
        (bytes[0] as nat) % 128 + 128 * varint_value(bytes.drop_first())
    }
}

/// The integer at the front of a byte string and the number of bytes that it
/// takes. At most ten bytes are read, and the integer has at most 64 bits.
pub open spec fn read_varint(bytes: Seq<u8>) -> Option<(nat, nat)> {
    match varint_end(bytes) {
        Some(n) => if n < 10 || (n == 10 && bytes[9] < 2) {
            Some((varint_value(bytes.take(n as int)), n))
        } else {
            None
        },
        None => None,
    }
}

pub proof fn lemma_varint_end(bytes: Seq<u8>)
    ensures
        varint_end(bytes) matches Some(n) ==> 0 < n <= bytes.len(),
    decreases bytes.len(),
{
    if bytes.len() > 0 && bytes[0] >= 128 {
        lemma_varint_end(bytes.drop_first());
    }
}

/// The least number that takes more than `k` bytes, or has bits beyond the
/// lowest of its last byte.
spec fn cap(k: nat) -> nat
    decreases k,
{
    if k <= 1 {
        2
    } else {
        128 * cap((k - 1) as nat)
    }
}

proof fn lemma_varint_shape(n: nat, k: nat)
    requires
        k >= 1,
        n < cap(k),
    ensures
        1 <= varint(n).len() <= k,
        varint(n).len() == k ==> varint(n)[k - 1] < 2,
        varint_value(varint(n)) == n,
    decreases k,
{
    if n < 128 {
        assert(varint(n).drop_first() =~= Seq::<u8>::empty());
        assert(varint_value(varint(n).drop_first()) == 0);
        if k > 1 {
            lemma_cap_positive((k - 1) as nat);
        }
    } else {
        let tail = varint(n / 128);
        assert(k > 1);
        assert(n / 128 < cap((k - 1) as nat));
        lemma_varint_shape(n / 128, (k - 1) as nat);
        assert(varint(n).drop_first() =~= tail);
        assert((n % 128 + 128) as u8 as nat % 128 == n % 128);
    }
}

proof fn lemma_cap_positive(k: nat)
    ensures
        cap(k) >= 2,
    decreases k,
{
    if k > 1 {
        lemma_cap_positive((k - 1) as nat);
    }
}

proof fn lemma_varint_prefix(n: nat, rest: Seq<u8>)
    ensures
        varint_end(varint(n) + rest) == Some(varint(n).len()),
    decreases n,
{
    let all = varint(n) + rest;
    if n >= 128 {
        lemma_varint_prefix(n / 128, rest);
        assert(all.drop_first() =~= varint(n / 128) + rest);
        assert(all[0] == (n % 128 + 128) as u8);
    } else {
        assert(all[0] == n as u8);
    }
}

/// Reading gives back the integer that was written, whatever follows it.
pub proof fn law_varint_round_trip(n: u64, rest: Seq<u8>)
    ensures
        read_varint(varint(n as nat) + rest) == Some((n as nat, varint(n as nat).len())),
        1 <= varint(n as nat).len() <= 10,
{
    assert(cap(10) == 0x1_0000_0000_0000_0000) by {
        reveal_with_fuel(cap, 11);
    }
    lemma_varint_shape(n as nat, 10);
    lemma_varint_prefix(n as nat, rest);
    let all = varint(n as nat) + rest;
    assert(all.take(varint(n as nat).len() as int) =~= varint(n as nat));
    if varint(n as nat).len() == 10 {
        assert(all[9] == varint(n as nat)[9]);
    }
}

/// Calls `prost::encoding::encode_varint`, which appends the integer to the
/// buffer, seven bits to a byte, lowest first.
#[verifier::external_body]
pub(crate) fn encode_varint(value: u64, buf: &mut Vec<u8>)
    ensures
        final(buf)@ == old(buf)@ + varint(value as nat),
{
    prost::encoding::encode_varint(value, buf)
}

/// Calls `prost::encoding::decode_varint` on the front of the bytes, which
/// reads one integer, and fails where the bytes end first, where it takes more
/// than ten bytes or where it does not fit in 64 bits. The second part of the
/// result is the number of bytes left behind it.
#[verifier::external_body]
pub(crate) fn decode_varint(bytes: &[u8]) -> (out: Option<(u64, usize)>)
    ensures
        match read_varint(bytes@) {
            Some((value, used)) => out matches Some((v, left)) && v == value && left
                == bytes@.len() - used,
            None => out is None,
        },
{
    let mut buf = bytes;
    match prost::encoding::decode_varint(&mut buf) {
        Ok(value) => Some((value, buf.len())),
        Err(_) => None,
    }
}

} // verus!
