//! Node interner: owns every node record and keeps keys unique.

use vstd::prelude::*;
use crate::base::{NodeId, NodeKey};

verus! {

/// The keys after interning `key`: unchanged if it is present, else extended.
pub open spec fn keys_with<KV>(keys: Seq<KV>, key: KV) -> Seq<KV> {
    if keys.contains(key) {
        keys
    } else {
        keys.push(key)
    }
}

/// The payloads after interning `key` with `data`.
pub open spec fn payloads_with<KV, D>(keys: Seq<KV>, payloads: Seq<D>, key: KV, data: D) -> Seq<D> {
    if keys.contains(key) {
        payloads
    } else {
        payloads.push(data)
    }
}

/// The id under which `key` is found after interning it into `keys`.
pub open spec fn key_position<KV>(keys: Seq<KV>, key: KV) -> int {
    if keys.contains(key) {
        keys.index_of(key)
    } else {
        keys.len() as int
    }
}

/// A node's key together with its payload.
#[derive(Clone, Debug)]
pub struct NodeRecord<K, D> {
    pub key: K,
    pub data: D,
}

impl<K, D> NodeRecord<K, D> {
    pub fn new(key: K, data: D) -> (record: Self)
        ensures
            record.key == key,
            record.data == data,
    {
        Self { key, data }
    }
}

/// Bidirectional key/id mapping with insertion-order stable ids.
///
/// The id of a record is its position in `records`. Interning a key that is
/// already present hands back the existing id and leaves the stored payload
/// untouched.
pub struct NodeInterner<K: NodeKey, D: Copy> {
    pub records: Vec<NodeRecord<K, D>>,
}

impl<K: NodeKey, D: Copy> NodeInterner<K, D> {
    /// The views of the stored keys, by node id.
    pub open spec fn keys(&self) -> Seq<K::V> {
        Seq::new(self.records@.len(), |i: int| self.records@[i].key@)
    }

    /// The stored payloads, by node id.
    pub open spec fn payloads(&self) -> Seq<D> {
        Seq::new(self.records@.len(), |i: int| self.records@[i].data)
    }

    /// No key is stored twice.
    pub open spec fn wf(&self) -> bool {
        forall|i: int, j: int|
            0 <= i < j < self.records@.len() ==> self.records@[i].key@ != self.records@[j].key@
    }

    pub fn new() -> (interner: Self)
        ensures
            interner.wf(),
            interner.records@.len() == 0,
    {
        Self { records: Vec::new() }
    }

    /// Position of `key` among the records, if it is stored.
    pub fn get_id(&self, key: &K) -> (found: Option<NodeId>)
        ensures
            match found {
                Some(id) => id.0 < self.records@.len() && self.records@[id.0 as int].key@ == key@,
                None => !self.keys().contains(key@),
            },
    {
        let mut i: usize = 0;
        while i < self.records.len()
            invariant
                i <= self.records@.len(),
                forall|j: int| 0 <= j < i ==> self.records@[j].key@ != key@,
            decreases self.records@.len() - i,
        {
            if self.records[i].key.key_eq(key) {
                return Some(NodeId(i));
            }
            i += 1;
        }
        None
    }

    /// Interns `key` with `data`. A key that is already stored keeps its id
    /// and its payload.
    pub fn intern(&mut self, key: K, data: D) -> (id: NodeId)
        requires
            old(self).wf(),
        ensures
            final(self).wf(),
            final(self).keys() == keys_with(old(self).keys(), key@),
            final(self).payloads() == payloads_with(
                old(self).keys(),
                old(self).payloads(),
                key@,
                data,
            ),
            id.0 == key_position(old(self).keys(), key@),
            old(self).keys().contains(key@) ==> final(self).records@ == old(self).records@,
            !old(self).keys().contains(key@) ==> final(self).records@ == old(self).records@.push(
                NodeRecord { key, data },
            ),
    {
        proof {
            self.lemma_keys_distinct();
        }
        match self.get_id(&key) {
            Some(id) => {
                assert(self.keys()[id.0 as int] == key@);
                id
            },
            None => {
                let id = NodeId(self.records.len());
                let ghost before = *self;
                proof {
                    assert forall|j: int| 0 <= j < self.records@.len() implies self.records@[j].key@
                        != key@ by {
                        assert(self.keys()[j] == self.records@[j].key@);
                    }
                }
                self.records.push(NodeRecord::new(key, data));
                proof {
                    assert(self.keys() =~= before.keys().push(key@));
                    assert(self.payloads() =~= before.payloads().push(data));
                }
                id
            },
        }
    }

    /// Well-formedness says exactly that the key views are pairwise distinct.
    pub proof fn lemma_keys_distinct(&self)
        requires
            self.wf(),
        ensures
            self.keys().no_duplicates(),
            self.keys().len() == self.records@.len(),
            self.payloads().len() == self.records@.len(),
    {
        assert forall|i: int, j: int|
            0 <= i < self.keys().len() && 0 <= j < self.keys().len() && i != j implies self.keys()[i]
            != self.keys()[j] by {
            if i < j {
                assert(self.records@[i].key@ != self.records@[j].key@);
            } else {
                assert(self.records@[j].key@ != self.records@[i].key@);
            }
        }
    }

    pub fn len(&self) -> (n: usize)
        ensures
            n == self.records@.len(),
    {
        self.records.len()
    }

    pub fn get(&self, id: NodeId) -> (record: &NodeRecord<K, D>)
        requires
            id.0 < self.records@.len(),
        ensures
            *record == self.records@[id.0 as int],
    {
        &self.records[id.0]
    }

    /// Mutable access to one record. Changing the key through it may break
    /// `wf()`, which the caller then has to re-establish.
    pub fn get_mut(&mut self, id: NodeId) -> (record: &mut NodeRecord<K, D>)
        requires
            id.0 < old(self).records@.len(),
        ensures
            *record == old(self).records@[id.0 as int],
            final(self).records@ == old(self).records@.update(id.0 as int, *final(record)),
    {
        &mut self.records[id.0]
    }

    /// An independent copy with the same keys and payloads.
    pub fn duplicate(&self) -> (copy: Self)
        requires
            self.wf(),
        ensures
            copy.wf(),
            copy.keys() == self.keys(),
            copy.payloads() == self.payloads(),
    {
        let mut records: Vec<NodeRecord<K, D>> = Vec::new();
        let mut i: usize = 0;
        while i < self.records.len()
            invariant
                i <= self.records@.len(),
                records@.len() == i,
                forall|j: int|
                    0 <= j < i ==> (#[trigger] records@[j]).key@ == self.records@[j].key@
                        && records@[j].data == self.records@[j].data,
            decreases self.records@.len() - i,
        {
            records.push(NodeRecord::new(self.records[i].key.key_clone(), self.records[i].data));
            i += 1;
        }
        let copy = Self { records };
        proof {
            assert(copy.keys() =~= self.keys());
            assert(copy.payloads() =~= self.payloads());
            assert forall|i: int, j: int| 0 <= i < j < copy.records@.len() implies copy.records@[i].key@
                != copy.records@[j].key@ by {
                assert(self.records@[i].key@ != self.records@[j].key@);
            }
        }
        copy
    }

    /// Consumes the interner and hands out its records in id order.
    pub fn into_parts(self) -> (records: Vec<NodeRecord<K, D>>)
        ensures
            records@ == self.records@,
    {
        self.records
    }

    /// Every record paired with its id, in id order.
    pub fn iter(&self) -> (items: Vec<(NodeId, &NodeRecord<K, D>)>)
        ensures
            items@.len() == self.records@.len(),
            forall|i: int|
                0 <= i < items@.len() ==> (#[trigger] items@[i]).0 == NodeId(i as usize)
                    && *items@[i].1 == self.records@[i],
    {
        let mut items: Vec<(NodeId, &NodeRecord<K, D>)> = Vec::new();
        let mut i: usize = 0;
        while i < self.records.len()
            invariant
                i <= self.records@.len(),
                items@.len() == i,
                forall|j: int|
                    0 <= j < i ==> (#[trigger] items@[j]).0 == NodeId(j as usize) && *items@[j].1
                        == self.records@[j],
            decreases self.records@.len() - i,
        {
            items.push((NodeId(i), &self.records[i]));
            i += 1;
        }
        items
    }
}

} // verus!
