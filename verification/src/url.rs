//! Peer URLs.

use crate::ids::bytes_copy;
use vstd::prelude::*;

verus! {

/// The character code of the slash.
pub const SLASH: u8 = 47;

/// The character code of the colon.
pub const COLON: u8 = 58;

/// Whether `kitsune2_api::Url::new` accepts the bytes: text in the canonical
/// form of a URL with a known scheme, a host and a port.
pub uninterp spec fn valid_url(text: Seq<u8>) -> bool;

/// Calls `kitsune2_api::Url::new` and reports whether it accepts the bytes. It
/// keeps accepted bytes as they are. Nothing is said of which bytes those are.
#[verifier::external_body]
fn api_accepts_url(text: &[u8]) -> (ok: bool)
    ensures
        ok == valid_url(text@),
{
    kitsune2_api::Url::new(bytes::Bytes::copy_from_slice(text)).is_ok()
}

/// A validated URL.
#[derive(Debug)]
pub struct Url {
    bytes: Vec<u8>,
}

impl View for Url {
    type V = Seq<u8>;

    closed spec fn view(&self) -> Seq<u8> {
        self.bytes@
    }
}

impl Clone for Url {
    fn clone(&self) -> (copy: Self)
        ensures
            copy@ == self@,
    {
        proof {
            use_type_invariant(self);
        }
        Url { bytes: bytes_copy(&self.bytes) }
    }
}

impl Url {
    #[verifier::type_invariant]
    spec fn inv(&self) -> bool {
        valid_url(self.bytes@)
    }

    /// The URL that the bytes write down, if they do.
    pub fn parse(text: Vec<u8>) -> (url: Option<Url>)
        ensures
            match url {
                Some(url) => url@ == text@ && valid_url(text@),
                None => !valid_url(text@),
            },
    {
        if api_accepts_url(&text) {
            Some(Url { bytes: text })
        } else {
            None
        }
    }

    /// The text of the URL.
    pub fn as_bytes(&self) -> (text: &Vec<u8>)
        ensures
            text@ == self@,
            valid_url(self@),
    {
        proof {
            use_type_invariant(self);
        }
        &self.bytes
    }

    /// The peer id, if this is the URL of a peer: what stands behind the last
    /// slash.
    pub fn peer_id(&self) -> (id: Option<Vec<u8>>)
        ensures
            match peer_id_of(self@) {
                Some(text) => id matches Some(i) && i@ == text,
                None => id is None,
            },
    {
        proof {
            use_type_invariant(self);
        }
        api_peer_id(&self.bytes)
    }
}

/// What follows the first "://".
pub open spec fn behind_scheme(text: Seq<u8>) -> Option<Seq<u8>>
    decreases text.len(),
{
    if text.len() < 3 {
        None
    } else if text[0] == COLON && text[1] == SLASH && text[2] == SLASH {
        Some(text.skip(3))
    } else {
        behind_scheme(text.drop_first())
    }
}

/// What follows the last slash.
pub open spec fn behind_last_slash(text: Seq<u8>) -> Option<Seq<u8>>
    decreases text.len(),
{
    if text.len() == 0 {
        None
    } else if text.last() == SLASH {
        Some(Seq::empty())
    } else {
        match behind_last_slash(text.drop_last()) {
            Some(end) => Some(end.push(text.last())),
            None => None,
        }
    }
}

/// The peer id in the text of a URL: behind the scheme, what follows the last
/// slash, unless that is nothing.
pub open spec fn peer_id_of(text: Seq<u8>) -> Option<Seq<u8>> {
    match behind_scheme(text) {
        Some(rest) => match behind_last_slash(rest) {
            Some(id) => if id.len() > 0 {
                Some(id)
            } else {
                None
            },
            None => None,
        },
        None => None,
    }
}

/// Calls `kitsune2_api::Url::peer_id` on the URL with the given text, which
/// splits it behind the first "://" and then behind the last slash, and gives
/// nothing where there is no slash or nothing behind it.
#[verifier::external_body]
fn api_peer_id(text: &Vec<u8>) -> (id: Option<Vec<u8>>)
    requires
        valid_url(text@),
    ensures
        match peer_id_of(text@) {
            Some(part) => id matches Some(i) && i@ == part,
            None => id is None,
        },
{
    let url = kitsune2_api::Url::new(bytes::Bytes::copy_from_slice(text)).ok()?;
    url.peer_id().map(|id| id.as_bytes().to_vec())
}

proof fn lemma_behind_scheme(scheme: Seq<u8>, rest: Seq<u8>)
    requires
        forall|i: int| 0 <= i < scheme.len() ==> #[trigger] scheme[i] != 58,
    ensures
        behind_scheme(scheme + seq![58u8, 47u8, 47u8] + rest) == Some(rest),
    decreases scheme.len(),
{
    let text = scheme + seq![58u8, 47u8, 47u8] + rest;
    if scheme.len() == 0 {
        assert(text.skip(3) =~= rest);
    } else {
        let shorter = scheme.drop_first();
        assert forall|i: int| 0 <= i < shorter.len() implies #[trigger] shorter[i] != 58 by {
            assert(scheme[i + 1] != 58);
        }
        assert(scheme[0] != 58);
        assert(text.drop_first() =~= shorter + seq![58u8, 47u8, 47u8] + rest);
        lemma_behind_scheme(shorter, rest);
    }
}

proof fn lemma_behind_last_slash(head: Seq<u8>, id: Seq<u8>)
    requires
        head.len() == 0 || head.last() == 47,
        forall|i: int| 0 <= i < id.len() ==> #[trigger] id[i] != 47,
    ensures
        behind_last_slash(head + id) == if head.len() == 0 {
            None
        } else {
            Some(id)
        },
    decreases id.len(),
{
    let all = head + id;
    if id.len() == 0 {
        assert(all =~= head);
        assert(id =~= Seq::<u8>::empty());
    } else {
        let shorter = id.drop_last();
        assert forall|i: int| 0 <= i < shorter.len() implies #[trigger] shorter[i] != 47 by {
            assert(id[i] != 47);
        }
        lemma_behind_last_slash(head, shorter);
        assert(all.drop_last() =~= head + shorter);
        assert(id[id.len() - 1] != 47);
        assert(shorter.push(id.last()) =~= id);
    }
}

/// The id of a peer is what stands behind the last slash of its URL, the two
/// slashes behind the scheme not among them. Where there is no such slash, or
/// nothing behind it, the URL is not that of a peer.
pub proof fn law_peer_ids(scheme: Seq<u8>, host: Seq<u8>, id: Seq<u8>)
    requires
        forall|i: int| 0 <= i < scheme.len() ==> #[trigger] scheme[i] != 58,
        forall|i: int| 0 <= i < id.len() ==> #[trigger] id[i] != 47,
    ensures
        peer_id_of(scheme + seq![58u8, 47u8, 47u8] + (host + seq![47u8] + id)) == if id.len() > 0 {
            Some(id)
        } else {
            None
        },
        peer_id_of(scheme + seq![58u8, 47u8, 47u8] + id) is None,
{
    let none = Seq::<u8>::empty();
    lemma_behind_scheme(scheme, host + seq![47u8] + id);
    lemma_behind_last_slash(host + seq![47u8], id);
    lemma_behind_scheme(scheme, id);
    lemma_behind_last_slash(none, id);
    assert(none + id =~= id);
}

} // verus!
