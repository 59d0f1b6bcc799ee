//! The node table: the crawl's memory of every node discovered so far.
//!
//! The table maps a node identity to the record captured when the node was
//! first discovered.  Its `insert_if_absent` operation is the deduplication
//! gate of the whole crawl: only the caller that performs the first
//! successful insert of an identity learns so, and only that caller goes on
//! to expand the node.

use vstd::prelude::*;

use crate::node::{NodeId, NodeIdView, NodeRecord, NodeRecordView};

verus! {

/// The key of each entry, in mathematical form.
pub open spec fn keys_of(s: Seq<(NodeId, NodeRecord)>) -> Seq<NodeIdView> {
    s.map_values(|e: (NodeId, NodeRecord)| e.0@)
}

/// The mapping that a sequence of entries denotes; later entries would win,
/// but a well-formed table never repeats a key.
pub open spec fn map_of(s: Seq<(NodeId, NodeRecord)>) -> Map<NodeIdView, NodeRecordView>
    decreases s.len(),
{
    if s.len() == 0 {
        Map::empty()
    } else {
        map_of(s.drop_last()).insert(s.last().0@, s.last().1@)
    }
}

/// A key is in the denoted mapping exactly when some entry carries it.
pub proof fn lemma_map_of_dom(s: Seq<(NodeId, NodeRecord)>)
    ensures
        forall|k: NodeIdView| #[trigger] map_of(s).dom().contains(k) ==> keys_of(s).contains(k),
        forall|k: NodeIdView| #[trigger] keys_of(s).contains(k) ==> map_of(s).dom().contains(k),
    decreases s.len(),
{
    if s.len() == 0 {
    } else {
        lemma_map_of_dom(s.drop_last());
        assert(keys_of(s.drop_last()) =~= keys_of(s).drop_last());
        assert forall|k: NodeIdView| #[trigger] map_of(s).dom().contains(k) implies keys_of(
            s,
        ).contains(k) by {
            if k == s.last().0@ {
                assert(keys_of(s)[s.len() - 1] == k);
            } else {
                assert(map_of(s.drop_last()).dom().contains(k));
                assert(keys_of(s.drop_last()).contains(k));
                let i = choose|i: int| 0 <= i < keys_of(s.drop_last()).len() && keys_of(
                    s.drop_last(),
                )[i] == k;
                assert(keys_of(s).drop_last()[i] == k);
                assert(keys_of(s)[i] == k);
            }
        }
        assert forall|k: NodeIdView| #[trigger] keys_of(s).contains(k) implies map_of(
            s,
        ).dom().contains(k) by {
            let i = choose|i: int| 0 <= i < keys_of(s).len() && keys_of(s)[i] == k;
            if i < s.len() - 1 {
                assert(keys_of(s).drop_last()[i] == k);
                assert(keys_of(s.drop_last()).contains(k));
            } else {
                assert(k == s.last().0@);
            }
        }
    }
}

/// With distinct keys, the denoted mapping has one member per entry.
pub proof fn lemma_map_of_len(s: Seq<(NodeId, NodeRecord)>)
    requires
        keys_of(s).no_duplicates(),
    ensures
        map_of(s).dom().finite(),
        map_of(s).dom().len() == s.len(),
    decreases s.len(),
{
    if s.len() == 0 {
    } else {
        assert(keys_of(s.drop_last()) =~= keys_of(s).drop_last());
        lemma_map_of_len(s.drop_last());
        lemma_map_of_dom(s.drop_last());
        assert(!keys_of(s.drop_last()).contains(s.last().0@)) by {
            if keys_of(s.drop_last()).contains(s.last().0@) {
                let i = choose|i: int|
                    0 <= i < keys_of(s.drop_last()).len() && keys_of(s.drop_last())[i] == s.last().0@;
                assert(keys_of(s)[i] == keys_of(s)[s.len() - 1]);
            }
        }
    }
}

/// Mapping `NodeId -> NodeRecord` over every node discovered so far,
/// with the entries stored in discovery order.
pub struct NodeTable {
    pub entries: Vec<(NodeId, NodeRecord)>,
}

impl View for NodeTable {
    type V = Map<NodeIdView, NodeRecordView>;

    open spec fn view(&self) -> Map<NodeIdView, NodeRecordView> {
        map_of(self.entries@)
    }
}

impl NodeTable {
    /// The keys, in discovery order.
    pub open spec fn spec_keys(&self) -> Seq<NodeIdView> {
        keys_of(self.entries@)
    }

    /// Well-formed: no key occurs twice.
    pub open spec fn wf(&self) -> bool {
        self.spec_keys().no_duplicates()
    }

    pub fn new() -> (t: NodeTable)
        ensures
            t.wf(),
            t@ == Map::<NodeIdView, NodeRecordView>::empty(),
            t.entries@.len() == 0,
    {
        let t = NodeTable { entries: Vec::new() };
        proof {
            assert(t.spec_keys() =~= Seq::<NodeIdView>::empty());
        }
        t
    }

    /// Whether `id` has already been discovered.
    pub fn contains(&self, id: &NodeId) -> (r: bool)
        ensures
            r == self@.dom().contains(id@),
    {
        let n = self.entries.len();
        let mut i: usize = 0;
        while i < n
            invariant
                i <= n,
                n == self.entries.len(),
                forall|j: int| 0 <= j < i ==> self.entries@[j].0@ != id@,
            decreases n - i,
        {
            if self.entries[i].0.eq_id(id) {
                proof {
                    lemma_map_of_dom(self.entries@);
                    assert(keys_of(self.entries@)[i as int] == id@);
                    assert(keys_of(self.entries@).contains(id@));
                }
                return true;
            }
            i = i + 1;
        }
        proof {
            lemma_map_of_dom(self.entries@);
            if self@.dom().contains(id@) {
                assert(keys_of(self.entries@).contains(id@));
                let j = choose|j: int|
                    0 <= j < self.spec_keys().len() && self.spec_keys()[j] == id@;
                assert(self.entries@[j].0@ == id@);
            }
        }
        false
    }

    /// The number of discovered nodes.
    pub fn len(&self) -> (n: usize)
        requires
            self.wf(),
        ensures
            n == self@.dom().len(),
            n == self.entries@.len(),
    {
        proof {
            lemma_map_of_len(self.entries@);
        }
        self.entries.len()
    }

    /// The deduplication gate: record `id` unless it is already present.
    /// Returns whether this call performed the first insert of `id`; an
    /// already-present record is never overwritten.
    pub fn insert_if_absent(&mut self, id: NodeId, record: NodeRecord) -> (fresh: bool)
        requires
            old(self).wf(),
        ensures
            final(self).wf(),
            fresh == !old(self)@.dom().contains(id@),
            fresh ==> final(self)@ == old(self)@.insert(id@, record@) && final(self).spec_keys()
                == old(self).spec_keys().push(id@),
            !fresh ==> *final(self) == *old(self),
    {
        if self.contains(&id) {
            return false;
        }
        let ghost s0 = self.entries@;
        let ghost idv = id@;
        proof {
            lemma_map_of_dom(s0);
            assert(!keys_of(s0).contains(idv));
        }
        self.entries.push((id, record));
        proof {
            assert(self.entries@.drop_last() =~= s0);
            assert(self.spec_keys() =~= keys_of(s0).push(idv));
        }
        true
    }

    /// The recorded entries, in discovery order.
    pub fn entries(&self) -> (r: &Vec<(NodeId, NodeRecord)>)
        ensures
            r@ == self.entries@,
    {
        &self.entries
    }
}

} // verus!
