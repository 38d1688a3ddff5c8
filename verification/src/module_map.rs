//! The insertion-ordered association from a module identity to the
//! ordered list of identities it references.  One value of this type
//! serves both as the full import map built by a scan and as the
//! filtered dependency subgraph derived from it: keys are distinct,
//! a later insert for an existing key overwrites its references, and
//! iteration order is insertion order.

use vstd::prelude::*;
use vstd::pervasive::VecAdditionalExecFns;

verus! {

/// One key together with its ordered references.
pub struct Entry {
    pub key: String,
    pub refs: Vec<String>,
}

/// Insertion-ordered map from module identity to references.
pub struct ModuleMap {
    pub entries: Vec<Entry>,
}

impl ModuleMap {
    /// Number of keys.
    pub open spec fn len_spec(self) -> int {
        self.entries@.len() as int
    }

    /// The identity stored at position `i`.
    pub open spec fn key_at(self, i: int) -> Seq<char> {
        self.entries@[i].key@
    }

    /// The references stored at position `i`.
    pub open spec fn refs_at(self, i: int) -> Seq<Seq<char>> {
        self.entries@[i].refs.deep_view()
    }

    /// The identities in insertion order.
    pub open spec fn key_seq(self) -> Seq<Seq<char>> {
        Seq::new(self.entries@.len(), |i: int| self.key_at(i))
    }

    /// Well-formed: no identity occurs twice.
    pub open spec fn wf(self) -> bool {
        forall|i: int, j: int|
            0 <= i < j < self.len_spec() ==> self.key_at(i) != self.key_at(j)
    }

    /// Whether some entry holds the identity `k`.
    pub open spec fn contains_key(self, k: Seq<char>) -> bool {
        exists|i: int| 0 <= i < self.len_spec() && self.key_at(i) == k
    }

    /// The position of the entry holding `k` (meaningful when present).
    pub open spec fn index_of(self, k: Seq<char>) -> int {
        choose|i: int| 0 <= i < self.len_spec() && self.key_at(i) == k
    }

    /// The references of the entry holding `k` (meaningful when present).
    pub open spec fn refs_of(self, k: Seq<char>) -> Seq<Seq<char>> {
        self.refs_at(self.index_of(k))
    }

    /// In a well-formed map the entry at position `i` is the one that
    /// `refs_of` reads for its identity.
    pub proof fn lemma_entry_determines_refs(self, i: int)
        requires
            self.wf(),
            0 <= i < self.len_spec(),
        ensures
            self.contains_key(self.key_at(i)),
            self.index_of(self.key_at(i)) == i,
            self.refs_of(self.key_at(i)) == self.refs_at(i),
    {
        assert(self.contains_key(self.key_at(i)));
        let j = self.index_of(self.key_at(i));
        assert(0 <= j < self.len_spec() && self.key_at(j) == self.key_at(i));
        if i != j {
            assert(false);
        }
    }

    pub fn new() -> (r: ModuleMap)
        ensures
            r.wf(),
            r.len_spec() == 0,
            forall|k: Seq<char>| !r.contains_key(k),
    {
        ModuleMap { entries: Vec::new() }
    }

    pub fn len(&self) -> (r: usize)
        ensures
            r == self.len_spec(),
    {
        self.entries.len()
    }

    /// The identity at position `i`, for in-order iteration.
    pub fn entry_key(&self, i: usize) -> (r: &String)
        requires
            0 <= i < self.len_spec(),
        ensures
            r@ == self.key_at(i as int),
    {
        &self.entries[i].key
    }

    /// The references at position `i`, for in-order iteration.
    pub fn entry_refs(&self, i: usize) -> (r: &Vec<String>)
        requires
            0 <= i < self.len_spec(),
        ensures
            r.deep_view() == self.refs_at(i as int),
    {
        &self.entries[i].refs
    }

    /// Look an identity up.
    pub fn get(&self, key: &String) -> (r: Option<&Vec<String>>)
        requires
            self.wf(),
        ensures
            match r {
                Some(v) => self.contains_key(key@) && v.deep_view() == self.refs_of(key@),
                None => !self.contains_key(key@),
            },
    {
        let n = self.entries.len();
        let mut j: usize = 0;
        while j < n
            invariant
                0 <= j <= n,
                n == self.len_spec(),
                self.wf(),
                forall|t: int| 0 <= t < j ==> self.key_at(t) != key@,
            decreases n - j,
        {
            if self.entries[j].key == *key {
                proof {
                    self.lemma_entry_determines_refs(j as int);
                }
                return Some(&self.entries[j].refs);
            }
            j = j + 1;
        }
        None
    }

    /// Insert or overwrite: the references for `key` become `refs`; an
    /// existing entry keeps its position, a new one goes to the end.
    pub fn insert(&mut self, key: String, refs: Vec<String>)
        requires
            old(self).wf(),
        ensures
            final(self).wf(),
            spec_inserted(*old(self), *final(self), key@, refs.deep_view()),
    {
        let ghost m0 = *self;
        let n = self.entries.len();
        let mut j: usize = 0;
        while j < n
            invariant
                0 <= j <= n,
                *self == m0,
                m0 == *old(self),
                n == m0.len_spec(),
                m0.wf(),
                forall|t: int| 0 <= t < j ==> m0.key_at(t) != key@,
            decreases n - j,
        {
            if self.entries[j].key == key {
                self.entries.set(j, Entry { key, refs });
                proof {
                    assert(self.key_seq() =~= m0.key_seq());
                    lemma_update_is_insert(m0, *self, j as int, key@, refs.deep_view());
                }
                return;
            }
            j = j + 1;
        }
        self.entries.push(Entry { key, refs });
        proof {
            assert(self.key_seq() =~= m0.key_seq().push(key@));
            lemma_push_is_insert(m0, *self, key@, refs.deep_view());
        }
    }
}

/// What one insert does: `k` now maps to `rs`, every other identity is
/// unchanged, and the key order is kept, with a fresh key at the end.
pub open spec fn spec_inserted(m0: ModuleMap, m1: ModuleMap, k: Seq<char>, rs: Seq<Seq<char>>) -> bool {
    &&& (forall|k2: Seq<char>| m1.contains_key(k2) <==> (m0.contains_key(k2) || k2 == k))
    &&& m1.contains_key(k)
    &&& m1.refs_of(k) == rs
    &&& (forall|k2: Seq<char>|
        k2 != k && m0.contains_key(k2) ==> m1.refs_of(k2) == m0.refs_of(k2))
    &&& m1.key_seq() == (if m0.contains_key(k) {
        m0.key_seq()
    } else {
        m0.key_seq().push(k)
    })
}

proof fn lemma_update_is_insert(m0: ModuleMap, m1: ModuleMap, j: int, k: Seq<char>, rs: Seq<Seq<char>>)
    requires
        m0.wf(),
        0 <= j < m0.len_spec(),
        m0.key_at(j) == k,
        m1.entries@ == m0.entries@.update(j, m1.entries@[j]),
        m1.key_at(j) == k,
        m1.refs_at(j) == rs,
        m1.key_seq() == m0.key_seq(),
    ensures
        m1.wf(),
        spec_inserted(m0, m1, k, rs),
{
    assert(m1.len_spec() == m0.len_spec());
    assert(forall|t: int| 0 <= t < m1.len_spec() ==> m1.key_at(t) == m0.key_at(t)) by {
        assert(forall|t: int|
            0 <= t < m1.len_spec() ==> m1.key_seq()[t] == m1.key_at(t) && m0.key_seq()[t]
                == m0.key_at(t));
    }
    assert(forall|t: int| 0 <= t < m1.len_spec() && t != j ==> m1.refs_at(t) == m0.refs_at(t));
    assert(m1.wf());
    assert(forall|k2: Seq<char>| m1.contains_key(k2) <==> (m0.contains_key(k2) || k2 == k));
    m1.lemma_entry_determines_refs(j);
    assert forall|k2: Seq<char>| k2 != k && m0.contains_key(k2) implies m1.refs_of(k2)
        == m0.refs_of(k2) by {
        let i = m0.index_of(k2);
        assert(0 <= i < m0.len_spec() && m0.key_at(i) == k2);
        m0.lemma_entry_determines_refs(i);
        m1.lemma_entry_determines_refs(i);
    }
    assert(m0.contains_key(k));
}

proof fn lemma_push_is_insert(m0: ModuleMap, m1: ModuleMap, k: Seq<char>, rs: Seq<Seq<char>>)
    requires
        m0.wf(),
        !m0.contains_key(k),
        m1.entries@ == m0.entries@.push(m1.entries@[m0.len_spec()]),
        m1.key_at(m0.len_spec()) == k,
        m1.refs_at(m0.len_spec()) == rs,
        m1.key_seq() == m0.key_seq().push(k),
    ensures
        m1.wf(),
        spec_inserted(m0, m1, k, rs),
{
    let n = m0.len_spec();
    assert(m1.len_spec() == n + 1);
    assert(forall|t: int| 0 <= t < n ==> m1.key_at(t) == m0.key_at(t));
    assert(forall|t: int| 0 <= t < n ==> m1.refs_at(t) == m0.refs_at(t));
    assert(m1.wf());
    assert(forall|k2: Seq<char>| m1.contains_key(k2) <==> (m0.contains_key(k2) || k2 == k));
    m1.lemma_entry_determines_refs(n);
    assert forall|k2: Seq<char>| k2 != k && m0.contains_key(k2) implies m1.refs_of(k2)
        == m0.refs_of(k2) by {
        let i = m0.index_of(k2);
        assert(0 <= i < n && m0.key_at(i) == k2);
        m0.lemma_entry_determines_refs(i);
        m1.lemma_entry_determines_refs(i);
    }
}

} // verus!
