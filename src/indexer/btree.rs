//! An index held as a list of distinct keys, kept in byte-lexicographic
//! order, with their locations.
use crate::data::LogRecordPos;
use crate::indexer::{Indexer, lookup};
use vstd::prelude::*;

verus! {

/// Byte-lexicographic order from position `i` on: the first differing byte
/// decides, and a proper prefix comes first.
pub open spec fn lex_lt_from(a: Seq<u8>, b: Seq<u8>, i: nat) -> bool
    decreases a.len() - i,
{
    if i >= a.len() {
        i < b.len()
    } else if i >= b.len() {
        false
    } else if a[i as int] != b[i as int] {
        a[i as int] < b[i as int]
    } else {
        lex_lt_from(a, b, i + 1)
    }
}

/// Byte-lexicographic order on keys.
pub open spec fn lex_lt(a: Seq<u8>, b: Seq<u8>) -> bool {
    lex_lt_from(a, b, 0)
}

proof fn lemma_lex_trans(a: Seq<u8>, b: Seq<u8>, c: Seq<u8>, i: nat)
    requires
        lex_lt_from(a, b, i),
        lex_lt_from(b, c, i),
    ensures
        lex_lt_from(a, c, i),
    decreases a.len() - i,
{
    if i < a.len() && i < b.len() && i < c.len() && a[i as int] == b[i as int] && b[i as int] == c[i as int] {
        lemma_lex_trans(a, b, c, i + 1);
    }
}

proof fn lemma_lex_total(a: Seq<u8>, b: Seq<u8>, i: nat)
    requires
        i <= a.len(),
        i <= b.len(),
        a.subrange(0, i as int) == b.subrange(0, i as int),
        a != b,
    ensures
        lex_lt_from(a, b, i) || lex_lt_from(b, a, i),
    decreases a.len() - i,
{
    if i < a.len() && i < b.len() && a[i as int] == b[i as int] {
        assert(a.subrange(0, i + 1 as int) == a.subrange(0, i as int).push(a[i as int]));
        assert(b.subrange(0, i + 1 as int) == b.subrange(0, i as int).push(b[i as int]));
        lemma_lex_total(a, b, i + 1);
    } else if i >= a.len() && i >= b.len() {
        assert(a == a.subrange(0, i as int));
        assert(b == b.subrange(0, i as int));
    }
}

proof fn lemma_lex_irrefl(a: Seq<u8>, i: nat)
    ensures
        !lex_lt_from(a, a, i),
    decreases a.len() - i,
{
    if i < a.len() {
        lemma_lex_irrefl(a, i + 1);
    }
}

/// Whether `a` comes before `b` in byte-lexicographic order.
fn bytes_lt(a: &[u8], b: &[u8]) -> (r: bool)
    ensures
        r == lex_lt(a@, b@),
{
    let mut i: usize = 0;
    while i < a.len() && i < b.len() && a[i] == b[i]
        invariant
            i <= a@.len(),
            i <= b@.len(),
            lex_lt(a@, b@) == lex_lt_from(a@, b@, i as nat),
        decreases a@.len() - i,
    {
        i = i + 1;
    }
    if i < a.len() && i < b.len() {
        a[i] < b[i]
    } else {
        i >= a.len() && i < b.len()
    }
}

pub struct BTree {
    entries: Vec<(Vec<u8>, LogRecordPos)>,
    map: Ghost<Map<Seq<u8>, LogRecordPos>>,
}

/// Whether two byte strings are equal.
fn same_bytes(a: &[u8], b: &[u8]) -> (r: bool)
    ensures
        r == (a@ == b@),
{
    if a.len() != b.len() {
        return false;
    }
    let mut i: usize = 0;
    while i < a.len()
        invariant
            i <= a@.len(),
            a@.len() == b@.len(),
            forall|j: int| 0 <= j < i ==> a@[j] == b@[j],
        decreases a@.len() - i,
    {
        if a[i] != b[i] {
            return false;
        }
        i = i + 1;
    }
    assert(a@ =~= b@);
    true
}

impl BTree {
    pub closed spec fn key_at(&self, i: int) -> Seq<u8> {
        self.entries@[i].0@
    }

    /// The list holds each key once, in byte-lexicographic order, and exactly
    /// the keys of the map, with their locations.
    pub closed spec fn entries_match(&self) -> bool {
        &&& self.map@.dom().finite()
        &&& self.map@.len() == self.entries@.len()
        &&& forall|i: int| 0 <= i < self.entries@.len() ==> #[trigger] self.map@.contains_key(self.key_at(i))
            && self.map@[self.key_at(i)] == self.entries@[i].1
        &&& forall|i: int, j: int| 0 <= i < j < self.entries@.len() ==> self.key_at(i) != self.key_at(j)
        &&& forall|i: int, j: int| 0 <= i < j < self.entries@.len() ==> lex_lt(self.key_at(i), self.key_at(j))
        &&& forall|k: Seq<u8>| #[trigger] self.map@.contains_key(k) ==> exists|i: int|
            0 <= i < self.entries@.len() && self.key_at(i) == k
    }

    /// An empty index.
    pub fn new() -> (r: Self)
        ensures
            r.model() == Map::<Seq<u8>, LogRecordPos>::empty(),
            r.well_formed(),
    {
        BTree { entries: Vec::new(), map: Ghost(Map::empty()) }
    }

    /// The position of `key` in the list, if it is there.
    fn find(&self, key: &[u8]) -> (r: Option<usize>)
        requires
            self.entries_match(),
        ensures
            match r {
                Some(i) => i < self.entries@.len() && self.key_at(i as int) == key@,
                None => !self.map@.contains_key(key@),
            },
    {
        let mut i: usize = 0;
        while i < self.entries.len()
            invariant
                i <= self.entries@.len(),
                forall|j: int| 0 <= j < i ==> self.key_at(j) != key@,
            decreases self.entries@.len() - i,
        {
            if same_bytes(self.entries[i].0.as_slice(), key) {
                return Some(i);
            }
            i = i + 1;
        }
        None
    }

    /// Where `key`, which the index does not hold, goes to keep the order:
    /// every key before it is smaller, the key at it (if any) larger.
    fn insert_position(&self, key: &[u8]) -> (r: usize)
        requires
            self.entries_match(),
            !self.map@.contains_key(key@),
        ensures
            r <= self.entries@.len(),
            forall|j: int| 0 <= j < r ==> lex_lt(#[trigger] self.key_at(j), key@),
            r < self.entries@.len() ==> lex_lt(key@, self.key_at(r as int)),
    {
        let mut i: usize = 0;
        while i < self.entries.len() && bytes_lt(self.entries[i].0.as_slice(), key)
            invariant
                i <= self.entries@.len(),
                forall|j: int| 0 <= j < i ==> lex_lt(#[trigger] self.key_at(j), key@),
            decreases self.entries@.len() - i,
        {
            i = i + 1;
        }
        proof {
            if i < self.entries@.len() {
                assert(self.map@.contains_key(self.key_at(i as int)));
                assert(self.key_at(i as int) != key@);
                assert(self.key_at(i as int).subrange(0, 0) =~= key@.subrange(0, 0));
                lemma_lex_total(self.key_at(i as int), key@, 0);
            }
        }
        i
    }

    /// A copy of `key`.
    fn copy_key(key: &[u8]) -> (r: Vec<u8>)
        ensures
            r@ == key@,
    {
        let mut out: Vec<u8> = Vec::new();
        crate::data::append_bytes(&mut out, key);
        out
    }
}

impl Indexer for BTree {
    closed spec fn model(&self) -> Map<Seq<u8>, LogRecordPos> {
        self.map@
    }

    closed spec fn well_formed(&self) -> bool {
        self.entries_match()
    }

    fn put(&mut self, key: &[u8], pos: &LogRecordPos) -> (r: Option<LogRecordPos>) {
        match self.find(key) {
            Some(i) => {
                let prev = self.entries[i].1;
                let k = Self::copy_key(key);
                let ghost old_entries = self.entries@;
                self.entries.set(i, (k, *pos));
                self.map = Ghost(self.map@.insert(key@, *pos));
                proof {
                    assert forall|j: int| 0 <= j < self.entries@.len() implies self.key_at(j) == old(self).key_at(j) by {}
                    assert forall|a: int, b: int| 0 <= a < b < self.entries@.len() implies self.key_at(a) != self.key_at(b)
                        && lex_lt(self.key_at(a), self.key_at(b)) by {
                        assert(self.key_at(a) == old(self).key_at(a));
                        assert(self.key_at(b) == old(self).key_at(b));
                    }
                    assert forall|j: int| 0 <= j < self.entries@.len() implies #[trigger] self.map@.contains_key(self.key_at(j))
                        && self.map@[self.key_at(j)] == self.entries@[j].1 by {
                        if j != i {
                            assert(self.key_at(j) == old(self).key_at(j));
                        }
                    }
                    assert forall|k2: Seq<u8>| #[trigger] self.map@.contains_key(k2) implies exists|j: int|
                        0 <= j < self.entries@.len() && self.key_at(j) == k2 by {
                        if k2 != key@ {
                            assert(old(self).map@.contains_key(k2));
                            let j = choose|j: int| 0 <= j < old_entries.len() && old(self).key_at(j) == k2;
                            assert(self.key_at(j) == k2);
                        } else {
                            assert(self.key_at(i as int) == k2);
                        }
                    }
                    assert(self.map@.dom() =~= old(self).map@.dom());
                }
                Some(prev)
            },
            None => {
                let at = self.insert_position(key);
                let k = Self::copy_key(key);
                let ghost old_entries = self.entries@;
                self.entries.insert(at, (k, *pos));
                self.map = Ghost(self.map@.insert(key@, *pos));
                proof {
                    let n = old_entries.len() as int;
                    let at = at as int;
                    assert(self.key_at(at) == key@);
                    assert forall|j: int| 0 <= j < at implies self.key_at(j) == old(self).key_at(j) by {}
                    assert forall|j: int| at < j < self.entries@.len() implies self.key_at(j) == old(self).key_at(j - 1) by {}
                    assert forall|j: int| 0 <= j < n implies old(self).key_at(j) != key@ by {
                        assert(old(self).map@.contains_key(old(self).key_at(j)));
                    }
                    assert forall|j: int| 0 <= j < self.entries@.len() implies #[trigger] self.map@.contains_key(self.key_at(j))
                        && self.map@[self.key_at(j)] == self.entries@[j].1 by {
                        if j < at {
                            assert(old(self).map@.contains_key(old(self).key_at(j)));
                        } else if j > at {
                            assert(old(self).map@.contains_key(old(self).key_at(j - 1)));
                        }
                    }
                    assert forall|j: int| at <= j < n implies lex_lt(key@, #[trigger] old(self).key_at(j)) by {
                        if j > at {
                            assert(lex_lt(old(self).key_at(at), old(self).key_at(j)));
                            lemma_lex_trans(key@, old(self).key_at(at), old(self).key_at(j), 0);
                        }
                    }
                    assert forall|a: int, b: int| 0 <= a < b < self.entries@.len() implies self.key_at(a) != self.key_at(b)
                        && lex_lt(self.key_at(a), self.key_at(b)) by {
                        let a2 = if a < at { a } else { a - 1 };
                        let b2 = if b < at { b } else { b - 1 };
                        if a == at {
                            assert(lex_lt(key@, old(self).key_at(b2)));
                        } else if b == at {
                            assert(lex_lt(old(self).key_at(a2), key@));
                        } else {
                            assert(self.key_at(a) == old(self).key_at(a2));
                            assert(self.key_at(b) == old(self).key_at(b2));
                            assert(lex_lt(old(self).key_at(a2), old(self).key_at(b2)));
                        }
                        lemma_lex_irrefl(self.key_at(a), 0);
                    }
                    assert forall|k2: Seq<u8>| #[trigger] self.map@.contains_key(k2) implies exists|j: int|
                        0 <= j < self.entries@.len() && self.key_at(j) == k2 by {
                        if k2 != key@ {
                            assert(old(self).map@.contains_key(k2));
                            let j = choose|j: int| 0 <= j < old_entries.len() && old(self).key_at(j) == k2;
                            if j < at {
                                assert(self.key_at(j) == k2);
                            } else {
                                assert(self.key_at(j + 1) == k2);
                            }
                        }
                    }
                }
                None
            },
        }
    }

    fn get(&self, key: &[u8]) -> (r: Option<LogRecordPos>) {
        match self.find(key) {
            Some(i) => Some(self.entries[i].1),
            None => None,
        }
    }

    fn delete(&mut self, key: &[u8]) -> (r: Option<LogRecordPos>) {
        match self.find(key) {
            Some(i) => {
                let ghost old_entries = self.entries@;
                let (_, prev) = self.entries.remove(i);
                self.map = Ghost(self.map@.remove(key@));
                proof {
                    assert(old(self).entries_match());
                    assert(old(self).map@.contains_key(key@));
                    assert(self.map@.dom() == old(self).map@.dom().remove(key@));
                    assert(self.map@.len() == old(self).map@.len() - 1);
                    assert(self.entries@.len() == old_entries.len() - 1);
                    let n = old_entries.len() as int;
                    assert forall|j: int| 0 <= j < self.entries@.len() implies #[trigger] self.map@.contains_key(self.key_at(j))
                        && self.map@[self.key_at(j)] == self.entries@[j].1 by {
                        if j < i {
                            assert(self.key_at(j) == old(self).key_at(j));
                            assert(old(self).map@.contains_key(old(self).key_at(j)));
                        } else {
                            assert(self.key_at(j) == old(self).key_at(j + 1));
                            assert(old(self).map@.contains_key(old(self).key_at(j + 1)));
                        }
                    }
                    assert forall|a: int, b: int| 0 <= a < b < self.entries@.len() implies lex_lt(
                        self.key_at(a),
                        self.key_at(b),
                    ) by {
                        let a2 = if a < i { a } else { a + 1 };
                        let b2 = if b < i { b } else { b + 1 };
                        assert(self.key_at(a) == old(self).key_at(a2));
                        assert(self.key_at(b) == old(self).key_at(b2));
                        assert(lex_lt(old(self).key_at(a2), old(self).key_at(b2)));
                    }
                    assert forall|a: int, b: int| 0 <= a < b < self.entries@.len() implies self.key_at(a) != self.key_at(
                        b,
                    ) by {
                        assert(lex_lt(self.key_at(a), self.key_at(b)));
                        lemma_lex_irrefl(self.key_at(a), 0);
                    }
                    assert forall|k2: Seq<u8>| #[trigger] self.map@.contains_key(k2) implies exists|j: int|
                        0 <= j < self.entries@.len() && self.key_at(j) == k2 by {
                        assert(old(self).map@.contains_key(k2));
                        assert(exists|j: int| 0 <= j < old_entries.len() && old(self).key_at(j) == k2);
                        let j = choose|j: int| 0 <= j < old_entries.len() && old(self).key_at(j) == k2;
                        assert(j != i);
                        if j < i {
                            assert(self.key_at(j) == k2);
                        } else {
                            assert(self.key_at(j - 1) == k2);
                        }
                    }
                }
                Some(prev)
            },
            None => {
                proof {
                    assert(self.map@.remove(key@) =~= self.map@);
                }
                None
            },
        }
    }

    fn size(&self) -> (r: usize) {
        self.entries.len()
    }
}

} // verus!
