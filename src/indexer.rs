//! The in-memory index from a key to where its latest record lives.
use crate::data::LogRecordPos;
use vstd::prelude::*;

pub mod btree;

verus! {

/// What a map holds for `key`, if anything.
pub open spec fn lookup(m: Map<Seq<u8>, LogRecordPos>, key: Seq<u8>) -> Option<LogRecordPos> {
    if m.contains_key(key) {
        Some(m[key])
    } else {
        None
    }
}

pub trait Indexer {
    /// The keys and locations that the index holds.
    spec fn model(&self) -> Map<Seq<u8>, LogRecordPos>;

    /// The index's internal invariant, which every operation keeps.
    spec fn well_formed(&self) -> bool;

    /// Stores `pos` for `key` and gives what was stored for it before.
    fn put(&mut self, key: &[u8], pos: &LogRecordPos) -> (r: Option<LogRecordPos>)
        requires
            old(self).well_formed(),
        ensures
            final(self).well_formed(),
            final(self).model() == old(self).model().insert(key@, *pos),
            r == lookup(old(self).model(), key@),
    ;

    /// What is stored for `key`.
    fn get(&self, key: &[u8]) -> (r: Option<LogRecordPos>)
        requires
            self.well_formed(),
        ensures
            r == lookup(self.model(), key@),
    ;

    /// Removes `key` and gives what was stored for it.
    fn delete(&mut self, key: &[u8]) -> (r: Option<LogRecordPos>)
        requires
            old(self).well_formed(),
        ensures
            final(self).well_formed(),
            final(self).model() == old(self).model().remove(key@),
            r == lookup(old(self).model(), key@),
    ;

    /// The number of keys held.
    fn size(&self) -> (r: usize)
        requires
            self.well_formed(),
        ensures
            r == self.model().len(),
    ;
}

#[derive(Clone, Copy, Debug, PartialEq, Eq, Structural)]
pub enum IndexerType {
    BTree,
}

/// A new, empty index of the kind asked for.
pub fn new_indexer(typ: IndexerType) -> (r: btree::BTree)
    ensures
        r.model() == Map::<Seq<u8>, LogRecordPos>::empty(),
        r.well_formed(),
{
    match typ {
        IndexerType::BTree => btree::BTree::new(),
    }
}

/// The index laws on one key: a put on an empty index finds nothing, a second
/// put finds the first location, a get then finds the second, a delete
/// removes it, and the size goes 0, 1, 1, 0.
pub proof fn lemma_index_semantics(key: Seq<u8>, p1: LogRecordPos, p2: LogRecordPos)
    ensures
        ({
            let m0 = Map::<Seq<u8>, LogRecordPos>::empty();
            let m1 = m0.insert(key, p1);
            let m2 = m1.insert(key, p2);
            let m3 = m2.remove(key);
            &&& lookup(m0, key) is None
            &&& lookup(m1, key) == Some(p1)
            &&& lookup(m2, key) == Some(p2)
            &&& lookup(m3, key) is None
            &&& m0.len() == 0 && m1.len() == 1 && m2.len() == 1 && m3.len() == 0
        }),
{
    let m0 = Map::<Seq<u8>, LogRecordPos>::empty();
    let m1 = m0.insert(key, p1);
    let m2 = m1.insert(key, p2);
    let m3 = m2.remove(key);
    assert(m1.dom() == set![key]);
    assert(m2.dom() == set![key]);
    assert(m3.dom() =~= Set::<Seq<u8>>::empty());
}

} // verus!
