//! The stable-id index: which store node holds which openpfe id, both ways.

use vstd::prelude::*;
use std::collections::HashMap;
use vstd::hash_map::StringHashMap;

verus! {

broadcast use vstd::std_specs::hash::group_hash_axioms;

/// Both directions of the id mapping after recording `records` in order,
/// each `(store node, Some(uuid))` overwriting what came before for that
/// uuid and for that node; `(store node, None)` records nothing.
pub open spec fn index_after(records: Seq<(u64, Option<String>)>) -> (Map<Seq<char>, u64>, Map<u64, Seq<char>>)
    decreases records.len(),
{
    if records.len() == 0 {
        (Map::empty(), Map::empty())
    } else {
        let prev = index_after(records.drop_last());
        let last = records.last();
        match last.1 {
            Some(u) => (prev.0.insert(u@, last.0), prev.1.insert(last.0, u@)),
            None => prev,
        }
    }
}

/// openpfe id → store node, and store node → openpfe id.
pub struct IdIndex {
    id_to_node: StringHashMap<u64>,
    node_to_id: HashMap<u64, String>,
}

impl IdIndex {
    /// The store node of each openpfe id.
    pub closed spec fn nodes(&self) -> Map<Seq<char>, u64> {
        self.id_to_node@
    }

    /// The openpfe id of each store node.
    pub closed spec fn uuids(&self) -> Map<u64, Seq<char>> {
        self.node_to_id@.map_values(|s: String| s@)
    }

    /// An empty index.
    pub fn new() -> (r: IdIndex)
        ensures
            r.nodes() == Map::<Seq<char>, u64>::empty(),
            r.uuids() == Map::<u64, Seq<char>>::empty(),
    {
        let r = IdIndex { id_to_node: StringHashMap::new(), node_to_id: HashMap::new() };
        assert(r.uuids() =~= Map::<u64, Seq<char>>::empty());
        r
    }

    /// The store node that holds openpfe id `uuid`.
    pub fn node_of(&self, uuid: &str) -> (r: Option<u64>)
        ensures
            r == self.nodes().get(uuid@),
    {
        match self.id_to_node.get(uuid) {
            Some(n) => Some(*n),
            None => None,
        }
    }

    /// The openpfe id held by store node `nid`.
    pub fn uuid_of(&self, nid: u64) -> (r: Option<String>)
        ensures
            match r {
                Some(s) => self.uuids().contains_key(nid) && s@ == self.uuids()[nid],
                None => !self.uuids().contains_key(nid),
            },
    {
        match self.node_to_id.get(&nid) {
            Some(s) => Some(s.clone()),
            None => None,
        }
    }

    /// Records that store node `nid` holds openpfe id `uuid`.
    pub fn insert(&mut self, uuid: String, nid: u64)
        ensures
            final(self).nodes() == old(self).nodes().insert(uuid@, nid),
            final(self).uuids() == old(self).uuids().insert(nid, uuid@),
    {
        let copy = uuid.clone();
        self.id_to_node.insert(uuid, nid);
        self.node_to_id.insert(nid, copy);
        assert(self.uuids() =~= old(self).uuids().insert(nid, uuid@));
    }

    /// Forgets openpfe id `uuid` and, where it had one, its store node;
    /// returns that node.
    pub fn remove(&mut self, uuid: &str) -> (r: Option<u64>)
        ensures
            r == old(self).nodes().get(uuid@),
            final(self).nodes() == old(self).nodes().remove(uuid@),
            final(self).nodes().get(uuid@) is None,
            final(self).uuids() == match r {
                Some(n) => old(self).uuids().remove(n),
                None => old(self).uuids(),
            },
    {
        let found = self.node_of(uuid);
        self.id_to_node.remove(uuid);
        if let Some(n) = found {
            let _ = self.node_to_id.remove(&n);
            assert(self.uuids() =~= old(self).uuids().remove(n));
        }
        found
    }

    /// Rebuilds the index from `records`: each store node with the value
    /// of its `id` property where that is a string.
    pub fn rebuild(&mut self, records: &Vec<(u64, Option<String>)>)
        ensures
            (final(self).nodes(), final(self).uuids()) == index_after(records@),
    {
        self.id_to_node.clear();
        self.node_to_id.clear();
        assert(self.uuids() =~= Map::<u64, Seq<char>>::empty());
        let mut i: usize = 0;
        while i < records.len()
            invariant
                i <= records.len(),
                (self.nodes(), self.uuids()) == index_after(records@.take(i as int)),
            decreases records.len() - i,
        {
            assert(records@.take(i as int + 1).drop_last() =~= records@.take(i as int));
            let (nid, uuid) = &records[i];
            if let Some(u) = uuid {
                self.insert(u.clone(), *nid);
            }
            i += 1;
        }
        assert(records@.take(records.len() as int) =~= records@);
    }
}

} // verus!
