//! Byte-string identities of agents, spaces and peers.

use vstd::prelude::*;

verus! {

/// Whether two byte strings hold the same bytes.
pub fn bytes_eq(a: &Vec<u8>, b: &Vec<u8>) -> (same: bool)
    ensures
        same == (a@ == b@),
{
    if a.len() != b.len() {
        return false;
    }
    let mut i: usize = 0;
    while i < a.len()
        invariant
            i <= a.len(),
            a.len() == b.len(),
            forall|j: int| 0 <= j < i ==> a@[j] == b@[j],
        decreases a.len() - i,
    {
        if a[i] != b[i] {
            return false;
        }
        i = i + 1;
    }
    assert(a@ =~= b@);
    true
}

/// A copy of a byte string.
pub fn bytes_copy(a: &Vec<u8>) -> (copy: Vec<u8>)
    ensures
        copy@ == a@,
{
    let mut copy: Vec<u8> = Vec::new();
    let mut i: usize = 0;
    while i < a.len()
        invariant
            i <= a.len(),
            copy@ == a@.take(i as int),
        decreases a.len() - i,
    {
        copy.push(a[i]);
        i = i + 1;
        assert(a@.take(i as int) =~= a@.take(i - 1).push(a@[i - 1]));
    }
    assert(a@.take(i as int) =~= a@);
    copy
}

/// The lexicographic order on byte strings: the first differing byte
/// decides, and a proper prefix comes before what it is a prefix of.
pub open spec fn lex_lt(a: Seq<u8>, b: Seq<u8>) -> bool
    decreases a.len(),
{
    b.len() > 0 && (a.len() == 0 || a[0] < b[0] || (a[0] == b[0] && lex_lt(
        a.drop_first(),
        b.drop_first(),
    )))
}

/// Whether `a` comes before `b` in lexicographic order.
pub fn bytes_lt(a: &Vec<u8>, b: &Vec<u8>) -> (less: bool)
    ensures
        less == lex_lt(a@, b@),
{
    let mut i: usize = 0;
    assert(a@.skip(0) =~= a@ && b@.skip(0) =~= b@);
    while i < a.len() && i < b.len() && a[i] == b[i]
        invariant
            i <= a.len(),
            i <= b.len(),
            lex_lt(a@, b@) == lex_lt(a@.skip(i as int), b@.skip(i as int)),
        decreases a.len() - i,
    {
        assert(a@.skip(i as int).drop_first() =~= a@.skip(i + 1));
        assert(b@.skip(i as int).drop_first() =~= b@.skip(i + 1));
        i = i + 1;
    }
    if i >= b.len() {
        false
    } else if i >= a.len() {
        true
    } else {
        a[i] < b[i]
    }
}

/// The order on ids is strict: no id comes before itself.
pub proof fn law_order_is_irreflexive(a: Seq<u8>)
    ensures
        !lex_lt(a, a),
    decreases a.len(),
{
    if a.len() > 0 {
        law_order_is_irreflexive(a.drop_first());
    }
}

/// The order on ids is transitive.
pub proof fn law_order_is_transitive(a: Seq<u8>, b: Seq<u8>, c: Seq<u8>)
    requires
        lex_lt(a, b),
        lex_lt(b, c),
    ensures
        lex_lt(a, c),
    decreases a.len(),
{
    if a.len() > 0 && a[0] == b[0] && b[0] == c[0] {
        law_order_is_transitive(a.drop_first(), b.drop_first(), c.drop_first());
    }
}

/// The order on ids is total: of two different ids one comes first.
pub proof fn law_order_is_total(a: Seq<u8>, b: Seq<u8>)
    ensures
        a == b || lex_lt(a, b) || lex_lt(b, a),
    decreases a.len(),
{
    if a.len() == 0 {
        if b.len() == 0 {
            assert(a =~= b);
        }
    } else if b.len() > 0 && a[0] == b[0] {
        law_order_is_total(a.drop_first(), b.drop_first());
        if a.drop_first() == b.drop_first() {
            assert(a =~= b) by {
                assert forall|i: int| 0 <= i < a.len() implies a[i] == b[i] by {
                    if i > 0 {
                        assert(a[i] == a.drop_first()[i - 1]);
                        assert(b[i] == b.drop_first()[i - 1]);
                    }
                }
                assert(a.len() == a.drop_first().len() + 1);
                assert(b.len() == b.drop_first().len() + 1);
            }
        }
    }
}

/// Identifies an agent.
#[derive(Debug)]
pub struct AgentId {
    /// The public key or hash that names the agent.
    pub bytes: Vec<u8>,
}

impl View for AgentId {
    type V = Seq<u8>;

    open spec fn view(&self) -> Seq<u8> {
        self.bytes@
    }
}

impl Clone for AgentId {
    fn clone(&self) -> (copy: Self)
        ensures
            copy@ == self@,
    {
        AgentId { bytes: bytes_copy(&self.bytes) }
    }
}

impl AgentId {
    /// The agent named by the given bytes.
    pub fn new(bytes: Vec<u8>) -> (id: AgentId)
        ensures
            id@ == bytes@,
    {
        AgentId { bytes }
    }

    /// Whether both name the same agent.
    pub fn same(&self, other: &AgentId) -> (same: bool)
        ensures
            same == (self@ == other@),
    {
        bytes_eq(&self.bytes, &other.bytes)
    }

    /// Whether this agent outranks the other: its id comes first.
    pub fn precedes(&self, other: &AgentId) -> (first: bool)
        ensures
            first == lex_lt(self@, other@),
    {
        bytes_lt(&self.bytes, &other.bytes)
    }
}

/// Identifies a space.
#[derive(Debug)]
pub struct SpaceId {
    /// The hash that names the space.
    pub bytes: Vec<u8>,
}

impl View for SpaceId {
    type V = Seq<u8>;

    open spec fn view(&self) -> Seq<u8> {
        self.bytes@
    }
}

/// A set of agents.
#[derive(Debug)]
pub struct AgentSet {
    /// The members, in the order in which they were added.
    pub members: Vec<AgentId>,
}

impl View for AgentSet {
    type V = Set<Seq<u8>>;

    open spec fn view(&self) -> Set<Seq<u8>> {
        Set::new(
            |id: Seq<u8>|
                exists|i: int|
                    0 <= i < self.members@.len() && #[trigger] self.members@[i]@ == id,
        )
    }
}

impl AgentSet {
    /// The empty set.
    pub fn new() -> (set: AgentSet)
        ensures
            set@ == Set::<Seq<u8>>::empty(),
    {
        let set = AgentSet { members: Vec::new() };
        assert(set@ =~= Set::<Seq<u8>>::empty());
        set
    }

    /// Whether the agent is a member.
    pub fn contains(&self, id: &AgentId) -> (found: bool)
        ensures
            found == self@.contains(id@),
    {
        let mut i: usize = 0;
        while i < self.members.len()
            invariant
                i <= self.members.len(),
                forall|j: int| 0 <= j < i ==> #[trigger] self.members@[j]@ != id@,
            decreases self.members.len() - i,
        {
            if self.members[i].same(id) {
                return true;
            }
            i = i + 1;
        }
        false
    }

    /// Adds an agent.
    pub fn insert(&mut self, id: AgentId)
        ensures
            final(self)@ == old(self)@.insert(id@),
    {
        if self.contains(&id) {
            assert(self@ =~= old(self)@.insert(id@));
            return;
        }
        self.members.push(id);
        assert(self@ =~= old(self)@.insert(id@)) by {
            assert(self.members@ == old(self).members@.push(id));
            assert forall|k: Seq<u8>| self@.contains(k) == old(self)@.insert(id@).contains(k) by {
                if self@.contains(k) {
                    let i = choose|i: int|
                        0 <= i < self.members@.len() && #[trigger] self.members@[i]@ == k;
                    if i < old(self).members@.len() {
                        assert(old(self).members@[i]@ == k);
                    }
                }
                if old(self)@.contains(k) {
                    let i = choose|i: int|
                        0 <= i < old(self).members@.len() && #[trigger] old(
                            self,
                        ).members@[i]@ == k;
                    assert(self.members@[i]@ == k);
                }
                if k == id@ {
                    assert(self.members@[self.members@.len() - 1]@ == k);
                }
            }
        }
    }
}

/// Of two ids that differ somewhere, the one with the lower byte at the first
/// such place comes first.
pub proof fn law_the_first_difference_decides(a: Seq<u8>, b: Seq<u8>, i: int)
    requires
        0 <= i < a.len(),
        i < b.len(),
        forall|j: int| 0 <= j < i ==> #[trigger] a[j] == b[j],
        a[i] != b[i],
    ensures
        lex_lt(a, b) <==> a[i] < b[i],
    decreases i,
{
    if i > 0 {
        assert(a[0] == b[0]);
        let (c, d) = (a.drop_first(), b.drop_first());
        assert forall|j: int| 0 <= j < i - 1 implies #[trigger] c[j] == d[j] by {
            assert(a[j + 1] == b[j + 1]);
        }
        law_the_first_difference_decides(c, d, i - 1);
    }
}

/// An id that another one starts with comes before that, and not after it.
pub proof fn law_a_prefix_comes_first(a: Seq<u8>, more: Seq<u8>)
    ensures
        lex_lt(a, a + more) <==> more.len() > 0,
        !lex_lt(a + more, a),
    decreases a.len(),
{
    let b = a + more;
    if a.len() > 0 {
        assert(b.drop_first() =~= a.drop_first() + more);
        law_a_prefix_comes_first(a.drop_first(), more);
    } else {
        assert(b =~= more);
    }
}

} // verus!
