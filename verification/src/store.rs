//! Author-owned last-write-wins fact store.
//!
//! Keys are `(author, kind)`, and an author may only write keys it owns, so
//! two writes to one key always come from the same author and are totally
//! ordered by that author's sequence number. The merge rule is
//! `seq > existing.seq`; equal sequence numbers are refused, which makes a
//! replay harmless and merge idempotent. Independent claims by different
//! authors are never collapsed into one.
//!
//! Sequence numbers are trusted only after the frame carrying them has been
//! authenticated; this module has no crypto in it.

use vstd::prelude::*;
use crate::bytes::to_vec;

verus! {

/// Truncated cert fingerprint identifying who authored a fact.
pub type AuthorId = [u8; 8];

/// What a fact is about — status, position, resource need, and so on.
///
/// A plain `u16` rather than an enum, so that a node running an older build
/// relays and stores kinds it does not understand.
pub type FactKind = u16;

/// One author's current value for one kind.
#[derive(Debug, Clone, PartialEq, Eq)]
pub struct Fact {
    /// Author-local monotonic counter. Higher wins.
    pub seq: u64,
    /// Opaque payload. Encoding is the app layer's business.
    pub payload: Vec<u8>,
}

/// The mathematical value of a fact: its sequence number and payload bytes.
pub open spec fn fact_view(f: Fact) -> (u64, Seq<u8>) {
    (f.seq, f.payload@)
}

struct Entry {
    author: AuthorId,
    kind: FactKind,
    fact: Fact,
}

/// The numeric value of an author id read as a big-endian integer; the
/// store keeps authors in ascending order of it, which is their
/// lexicographic byte order.
#[verifier::opaque]
pub open spec fn author_num(a: AuthorId) -> int {
    a[0] * 0x100_0000_0000_0000 + a[1] * 0x1_0000_0000_0000 + a[2] * 0x100_0000_0000
        + a[3] * 0x1_0000_0000 + a[4] * 0x100_0000 + a[5] * 0x1_0000 + a[6] * 0x100 + a[7]
}

/// The position of a key in the store's order.
pub open spec fn key_num(a: AuthorId, k: FactKind) -> int {
    author_num(a) * 0x1_0000 + k
}

spec fn entry_key(e: Entry) -> int {
    key_num(e.author, e.kind)
}

/// Distinct keys have distinct positions.
#[verifier::spinoff_prover]
#[verifier::rlimit(40)]
pub proof fn lemma_key_num_injective(a: AuthorId, k: FactKind, b: AuthorId, l: FactKind)
    requires
        key_num(a, k) == key_num(b, l),
    ensures
        a == b,
        k == l,
{
    broadcast use vstd::array::group_array_axioms;
    reveal(author_num);
    assert(a[0] == b[0]);
    assert(a[1] == b[1]);
    assert(a[2] == b[2]);
    assert(a[3] == b[3]);
    assert(a[4] == b[4]);
    assert(a[5] == b[5]);
    assert(a[6] == b[6]);
    assert(a[7] == b[7]);
    assert(k == l);
    assert forall|i: int| 0 <= i < 8 implies a[i] == b[i] by {}
    assert(a =~= b);
}

/// A merged view of every fact this node has heard.
///
/// The facts are held in a `Vec` kept in strictly ascending key order (the
/// order of [`key_num`], stated as the type's invariant) rather than in a
/// `BTreeMap`: merging replaces a stored fact in place, which on a
/// `BTreeMap` takes `get_mut`, a call vstd gives no contract, and vstd
/// orders no key that holds an array such as an [`AuthorId`].
pub struct Store {
    facts: Vec<Entry>,
}

spec fn sorted(s: Seq<Entry>) -> bool {
    forall|i: int, j: int| 0 <= i < j < s.len() ==> entry_key(s[i]) < entry_key(s[j])
}

spec fn map_of(s: Seq<Entry>) -> Map<(AuthorId, FactKind), (u64, Seq<u8>)>
    decreases s.len(),
{
    if s.len() == 0 {
        Map::empty()
    } else {
        let e = s.last();
        map_of(s.drop_last()).insert((e.author, e.kind), fact_view(e.fact))
    }
}

proof fn lemma_sorted_prefix(s: Seq<Entry>, n: int)
    requires
        sorted(s),
        0 <= n <= s.len(),
    ensures
        sorted(s.take(n)),
{
    assert forall|i: int, j: int| 0 <= i < j < s.take(n).len() implies entry_key(s.take(n)[i]) < entry_key(
        s.take(n)[j],
    ) by {
        assert(s.take(n)[i] == s[i]);
        assert(s.take(n)[j] == s[j]);
    }
}

/// Every held entry's key maps to its fact.
proof fn lemma_map_of_get(s: Seq<Entry>, i: int)
    requires
        sorted(s),
        0 <= i < s.len(),
    ensures
        map_of(s).contains_key((s[i].author, s[i].kind)),
        map_of(s)[(s[i].author, s[i].kind)] == fact_view(s[i].fact),
    decreases s.len(),
{
    let p = s.drop_last();
    if i < s.len() - 1 {
        lemma_sorted_prefix(s, s.len() - 1);
        assert(p =~= s.take(s.len() - 1));
        lemma_map_of_get(p, i);
        assert(p[i] == s[i]);
        if s[i].author == s.last().author && s[i].kind == s.last().kind {
            assert(entry_key(s[i]) < entry_key(s[s.len() - 1]));
        }
    }
}

/// Every key in the map is held by some entry.
proof fn lemma_map_of_has(s: Seq<Entry>, a: AuthorId, k: FactKind) -> (i: int)
    requires
        map_of(s).contains_key((a, k)),
    ensures
        0 <= i < s.len(),
        s[i].author == a,
        s[i].kind == k,
    decreases s.len(),
{
    if s.len() == 0 {
        0
    } else if s.last().author == a && s.last().kind == k {
        s.len() - 1
    } else {
        let p = s.drop_last();
        let j = lemma_map_of_has(p, a, k);
        assert(p[j] == s[j]);
        j
    }
}

/// A key between the entries below position `i` and those from `i` up is
/// not held.
proof fn lemma_map_of_absent(s: Seq<Entry>, i: int, a: AuthorId, k: FactKind)
    requires
        sorted(s),
        0 <= i <= s.len(),
        forall|j: int| 0 <= j < i ==> entry_key(#[trigger] s[j]) < key_num(a, k),
        i < s.len() ==> entry_key(s[i]) > key_num(a, k),
    ensures
        !map_of(s).contains_key((a, k)),
{
    if map_of(s).contains_key((a, k)) {
        let j = lemma_map_of_has(s, a, k);
        if j > i {
            assert(entry_key(s[i]) < entry_key(s[j]));
        }
    }
}

/// The store holds exactly as many facts as entries.
proof fn lemma_map_of_len(s: Seq<Entry>)
    requires
        sorted(s),
    ensures
        map_of(s).dom().finite(),
        map_of(s).dom().len() == s.len(),
    decreases s.len(),
{
    if s.len() > 0 {
        let p = s.drop_last();
        lemma_sorted_prefix(s, s.len() - 1);
        assert(p =~= s.take(s.len() - 1));
        lemma_map_of_len(p);
        let e = s.last();
        if map_of(p).contains_key((e.author, e.kind)) {
            let j = lemma_map_of_has(p, e.author, e.kind);
            assert(p[j] == s[j]);
            assert(entry_key(s[j]) < entry_key(s[s.len() - 1]));
        }
    }
}

/// Inserting an entry at its sorted position inserts its key.
proof fn lemma_map_of_insert(s: Seq<Entry>, i: int, e: Entry)
    requires
        0 <= i <= s.len(),
        sorted(s.insert(i, e)),
    ensures
        map_of(s.insert(i, e)) == map_of(s).insert((e.author, e.kind), fact_view(e.fact)),
    decreases s.len(),
{
    let t = s.insert(i, e);
    if i == s.len() {
        assert(t.drop_last() =~= s);
    } else {
        let p = s.drop_last();
        let l = s.last();
        assert(t.drop_last() =~= p.insert(i, e));
        assert(t.last() == l);
        lemma_sorted_prefix(t, t.len() - 1);
        assert(t.take(t.len() - 1) =~= p.insert(i, e));
        lemma_map_of_insert(p, i, e);
        assert(t[i] == e);
        assert(entry_key(t[i]) < entry_key(t[t.len() - 1]));
        assert(map_of(t) =~= map_of(s).insert((e.author, e.kind), fact_view(e.fact)));
    }
}

/// Replacing an entry by one with the same key updates that key.
proof fn lemma_map_of_update(s: Seq<Entry>, i: int, e: Entry)
    requires
        0 <= i < s.len(),
        sorted(s),
        s[i].author == e.author,
        s[i].kind == e.kind,
    ensures
        map_of(s.update(i, e)) == map_of(s).insert((e.author, e.kind), fact_view(e.fact)),
    decreases s.len(),
{
    let t = s.update(i, e);
    let p = s.drop_last();
    lemma_sorted_prefix(s, s.len() - 1);
    assert(p =~= s.take(s.len() - 1));
    if i == s.len() - 1 {
        assert(t.drop_last() =~= p);
        assert(map_of(t) =~= map_of(s).insert((e.author, e.kind), fact_view(e.fact)));
    } else {
        assert(t.drop_last() =~= p.update(i, e));
        lemma_map_of_update(p, i, e);
        assert(entry_key(s[i]) < entry_key(s[s.len() - 1]));
        assert(map_of(t) =~= map_of(s).insert((e.author, e.kind), fact_view(e.fact)));
    }
}

impl View for Store {
    type V = Map<(AuthorId, FactKind), (u64, Seq<u8>)>;

    /// Each `(author, kind)` key held, with its sequence number and payload.
    closed spec fn view(&self) -> Self::V {
        map_of(self.facts@)
    }
}

/// Whether a merge of `seq` for `key` is applied to `m`: the key is new, or
/// the incoming sequence number is strictly higher.
pub open spec fn merge_applies(m: Map<(AuthorId, FactKind), (u64, Seq<u8>)>, key: (AuthorId, FactKind), seq: u64) -> bool {
    !m.contains_key(key) || seq > m[key].0
}

/// The store after merging a fact.
pub open spec fn merge_spec(
    m: Map<(AuthorId, FactKind), (u64, Seq<u8>)>,
    key: (AuthorId, FactKind),
    seq: u64,
    payload: Seq<u8>,
) -> Map<(AuthorId, FactKind), (u64, Seq<u8>)> {
    if merge_applies(m, key, seq) {
        m.insert(key, (seq, payload))
    } else {
        m
    }
}

/// Merge is idempotent: merging a fact a second time is refused and changes
/// nothing, so the same fact arriving by several mesh paths is harmless.
pub proof fn lemma_merge_idempotent(
    m: Map<(AuthorId, FactKind), (u64, Seq<u8>)>,
    key: (AuthorId, FactKind),
    seq: u64,
    payload: Seq<u8>,
)
    ensures
        !merge_applies(merge_spec(m, key, seq, payload), key, seq),
        merge_spec(merge_spec(m, key, seq, payload), key, seq, payload) == merge_spec(m, key, seq, payload),
{
}

/// Merges of facts with distinct sequence numbers (or for distinct keys)
/// commute: a store converges on the same contents whatever order the mesh
/// delivers them in.
pub proof fn lemma_merge_commutes(
    m: Map<(AuthorId, FactKind), (u64, Seq<u8>)>,
    k1: (AuthorId, FactKind),
    s1: u64,
    p1: Seq<u8>,
    k2: (AuthorId, FactKind),
    s2: u64,
    p2: Seq<u8>,
)
    requires
        k1 != k2 || s1 != s2,
    ensures
        merge_spec(merge_spec(m, k1, s1, p1), k2, s2, p2) == merge_spec(merge_spec(m, k2, s2, p2), k1, s1, p1),
{
    let a = merge_spec(merge_spec(m, k1, s1, p1), k2, s2, p2);
    let b = merge_spec(merge_spec(m, k2, s2, p2), k1, s1, p1);
    assert(a =~= b);
}

/// After a merge the held sequence number for the key is the larger of the
/// old one and the incoming one: a late-arriving older fact never replaces a
/// newer one, and other keys are untouched.
pub proof fn lemma_merge_keeps_newest(
    m: Map<(AuthorId, FactKind), (u64, Seq<u8>)>,
    key: (AuthorId, FactKind),
    seq: u64,
    payload: Seq<u8>,
    other: (AuthorId, FactKind),
)
    ensures
        merge_spec(m, key, seq, payload).contains_key(key),
        m.contains_key(key) ==> merge_spec(m, key, seq, payload)[key].0 == if seq > m[key].0 {
            seq
        } else {
            m[key].0
        },
        other != key ==> merge_spec(m, key, seq, payload).contains_key(other) == m.contains_key(other),
        other != key && m.contains_key(other) ==> merge_spec(m, key, seq, payload)[other] == m[other],
{
}

impl Store {
    /// The store keeps its keys in strictly ascending order.
    #[verifier::type_invariant]
    spec fn inv(&self) -> bool {
        sorted(self.facts@)
    }

    /// An empty store.
    pub fn new() -> (s: Self)
        ensures
            s@ == Map::<(AuthorId, FactKind), (u64, Seq<u8>)>::empty(),
            s@.dom().finite(),
    {
        Store { facts: Vec::new() }
    }

    fn key_of(author: &AuthorId, kind: FactKind) -> (k: u128)
        ensures
            k == key_num(*author, kind),
    {
        let a = author;
        proof {
            reveal(author_num);
        }
        (a[0] as u128) * 0x100_0000_0000_0000_0000 + (a[1] as u128) * 0x1_0000_0000_0000_0000
            + (a[2] as u128) * 0x100_0000_0000_0000 + (a[3] as u128) * 0x1_0000_0000_0000
            + (a[4] as u128) * 0x100_0000_0000 + (a[5] as u128) * 0x1_0000_0000
            + (a[6] as u128) * 0x100_0000 + (a[7] as u128) * 0x1_0000 + (kind as u128)
    }

    /// The first position whose key is not below `key`.
    fn position(&self, author: &AuthorId, kind: FactKind) -> (i: usize)
        ensures
            i <= self.facts@.len(),
            forall|j: int| 0 <= j < i ==> entry_key(#[trigger] self.facts@[j]) < key_num(*author, kind),
            i < self.facts@.len() ==> entry_key(self.facts@[i as int]) >= key_num(*author, kind),
    {
        let k = Self::key_of(author, kind);
        let mut i: usize = 0;
        while i < self.facts.len()
            invariant
                i <= self.facts@.len(),
                k == key_num(*author, kind),
                forall|j: int| 0 <= j < i ==> entry_key(#[trigger] self.facts@[j]) < k,
            decreases self.facts@.len() - i,
        {
            let e = &self.facts[i];
            if Self::key_of(&e.author, e.kind) >= k {
                return i;
            }
            i = i + 1;
        }
        i
    }

    /// Merge an incoming fact.
    ///
    /// Returns `true` if it was applied, `false` if a same-or-newer value was
    /// already held. Refusing equal sequence numbers keeps a replayed frame
    /// from resetting anything, and makes merge idempotent.
    pub fn merge(&mut self, author: AuthorId, kind: FactKind, seq: u64, payload: &[u8]) -> (applied: bool)
        ensures
            applied == merge_applies(old(self)@, (author, kind), seq),
            final(self)@ == merge_spec(old(self)@, (author, kind), seq, payload@),
            final(self)@.dom().finite(),
            final(self)@.len() == old(self)@.len() + if !old(self)@.contains_key((author, kind)) { 1int } else { 0int },
    {
        proof {
            use_type_invariant(&*self);
            lemma_map_of_len(self.facts@);
        }
        let i = self.position(&author, kind);
        let ghost old_facts = self.facts@;
        let k = Self::key_of(&author, kind);
        if i < self.facts.len() && Self::key_of(&self.facts[i].author, self.facts[i].kind) == k {
            proof {
                lemma_key_num_injective(old_facts[i as int].author, old_facts[i as int].kind, author, kind);
                lemma_map_of_get(old_facts, i as int);
            }
            if seq <= self.facts[i].fact.seq {
                return false;
            }
            let new_entry = Entry { author, kind, fact: Fact { seq, payload: to_vec(payload) } };
            proof {
                lemma_map_of_update(old_facts, i as int, new_entry);
                assert forall|a: int, b: int| 0 <= a < b < old_facts.len() implies entry_key(
                    #[trigger] old_facts.update(i as int, new_entry)[a],
                ) < entry_key(#[trigger] old_facts.update(i as int, new_entry)[b]) by {
                    assert(entry_key(old_facts[a]) < entry_key(old_facts[b]));
                }
            }
            self.replace_at(i, new_entry);
            true
        } else {
            proof {
                lemma_map_of_absent(old_facts, i as int, author, kind);
            }
            let new_entry = Entry { author, kind, fact: Fact { seq, payload: to_vec(payload) } };
            let ghost new_facts = old_facts.insert(i as int, new_entry);
            proof {
                assert forall|a: int, b: int| 0 <= a < b < new_facts.len() implies entry_key(
                    #[trigger] new_facts[a],
                ) < entry_key(#[trigger] new_facts[b]) by {
                    if b < i {
                        assert(entry_key(old_facts[a]) < entry_key(old_facts[b]));
                    } else if b == i {
                    } else if a < i {
                        assert(new_facts[b] == old_facts[b - 1]);
                        assert(entry_key(old_facts[i as int]) <= entry_key(old_facts[b - 1]));
                    } else if a == i {
                        assert(new_facts[b] == old_facts[b - 1]);
                        assert(entry_key(old_facts[i as int]) <= entry_key(old_facts[b - 1]));
                    } else {
                        assert(entry_key(old_facts[a - 1]) < entry_key(old_facts[b - 1]));
                    }
                }
                lemma_map_of_insert(old_facts, i as int, new_entry);
            }
            self.insert_at(i, new_entry);
            true
        }
    }

    fn replace_at(&mut self, i: usize, e: Entry)
        requires
            i < old(self).facts@.len(),
            sorted(old(self).facts@.update(i as int, e)),
        ensures
            final(self).facts@ == old(self).facts@.update(i as int, e),
    {
        let mut facts = Vec::new();
        std::mem::swap(&mut facts, &mut self.facts);
        facts.set(i, e);
        self.facts = facts;
    }

    fn insert_at(&mut self, i: usize, e: Entry)
        requires
            i <= old(self).facts@.len(),
            sorted(old(self).facts@.insert(i as int, e)),
        ensures
            final(self).facts@ == old(self).facts@.insert(i as int, e),
    {
        let mut facts = Vec::new();
        std::mem::swap(&mut facts, &mut self.facts);
        facts.insert(i, e);
        self.facts = facts;
    }

    /// Current value for one author's fact kind.
    pub fn get(&self, author: &AuthorId, kind: FactKind) -> (res: Option<&Fact>)
        ensures
            res matches Some(f) ==> self@.contains_key((*author, kind)) && self@[(*author, kind)] == fact_view(*f),
            res is None ==> !self@.contains_key((*author, kind)),
    {
        proof {
            use_type_invariant(self);
        }
        let i = self.position(author, kind);
        let k = Self::key_of(author, kind);
        if i < self.facts.len() && Self::key_of(&self.facts[i].author, self.facts[i].kind) == k {
            proof {
                lemma_key_num_injective(self.facts@[i as int].author, self.facts@[i as int].kind, *author, kind);
                lemma_map_of_get(self.facts@, i as int);
            }
            Some(&self.facts[i].fact)
        } else {
            proof {
                lemma_map_of_absent(self.facts@, i as int, *author, kind);
            }
            None
        }
    }

    /// Every author reporting a given kind, with their value, in ascending
    /// order of author id.
    ///
    /// This is the "3 people report bridge out" query — the store never
    /// collapses independent claims into one, so the caller sees all of them.
    pub fn by_kind(&self, kind: FactKind) -> (res: Vec<(&AuthorId, &Fact)>)
        ensures
            forall|i: int| #![trigger res@[i]] 0 <= i < res@.len() ==> self@.contains_key((*res@[i].0, kind))
                && self@[(*res@[i].0, kind)] == fact_view(*res@[i].1),
            forall|a: AuthorId| #[trigger] self@.contains_key((a, kind)) ==> exists|i: int|
                0 <= i < res@.len() && *res@[i].0 == a,
            forall|i: int, j: int| 0 <= i < j < res@.len() ==> author_num(*res@[i].0) < author_num(*res@[j].0),
    {
        proof {
            use_type_invariant(self);
        }
        let ghost s = self.facts@;
        let mut res: Vec<(&AuthorId, &Fact)> = Vec::new();
        let ghost mut idx: Seq<int> = Seq::empty();
        let mut i: usize = 0;
        while i < self.facts.len()
            invariant
                s == self.facts@,
                i <= s.len(),
                sorted(s),
                res@.len() == idx.len(),
                forall|x: int| #![trigger idx[x]] 0 <= x < idx.len() ==> 0 <= idx[x] < i && s[idx[x]].kind == kind
                    && s[idx[x]].author == *res@[x].0 && s[idx[x]].fact == *res@[x].1,
                forall|x: int, y: int| 0 <= x < y < idx.len() ==> idx[x] < idx[y],
                forall|j: int| 0 <= j < i && (#[trigger] s[j]).kind == kind ==> exists|x: int|
                    0 <= x < idx.len() && idx[x] == j,
            decreases s.len() - i,
        {
            let e = &self.facts[i];
            if e.kind == kind {
                res.push((&e.author, &e.fact));
                proof {
                    let old_idx = idx;
                    idx = idx.push(i as int);
                    assert forall|j: int| 0 <= j < i + 1 && (#[trigger] s[j]).kind == kind implies exists|x: int|
                        0 <= x < idx.len() && idx[x] == j by {
                        if j < i {
                            let x = choose|x: int| 0 <= x < old_idx.len() && old_idx[x] == j;
                            assert(idx[x] == j);
                        } else {
                            assert(idx[idx.len() - 1] == j);
                        }
                    }
                }
            }
            i = i + 1;
        }
        proof {
            assert forall|x: int| #![trigger res@[x]] 0 <= x < res@.len() implies self@.contains_key((*res@[x].0, kind))
                && self@[(*res@[x].0, kind)] == fact_view(*res@[x].1) by {
                lemma_map_of_get(s, idx[x]);
            }
            assert forall|a: AuthorId| #[trigger] self@.contains_key((a, kind)) implies exists|x: int|
                0 <= x < res@.len() && *res@[x].0 == a by {
                let j = lemma_map_of_has(s, a, kind);
                assert(s[j].kind == kind);
                let x = choose|x: int| 0 <= x < idx.len() && idx[x] == j;
                assert(*res@[x].0 == a);
            }
            assert forall|x: int, y: int| 0 <= x < y < res@.len() implies author_num(*res@[x].0) < author_num(
                *res@[y].0,
            ) by {
                assert(idx[x] < idx[y]);
                assert(entry_key(s[idx[x]]) < entry_key(s[idx[y]]));
            }
        }
        res
    }

    /// Total number of stored facts.
    pub fn len(&self) -> (n: usize)
        ensures
            n == self@.len(),
            self@.dom().finite(),
    {
        proof {
            use_type_invariant(self);
            lemma_map_of_len(self.facts@);
        }
        self.facts.len()
    }

    /// Whether the store holds nothing.
    pub fn is_empty(&self) -> (b: bool)
        ensures
            b == (self@.len() == 0),
    {
        proof {
            use_type_invariant(self);
            lemma_map_of_len(self.facts@);
        }
        self.facts.len() == 0
    }
}

} // verus!
