//! The browse engine: a state machine that turns browse responses into a
//! complete node table.
//!
//! The engine never talks to a server itself.  It tells its caller which
//! request to issue next (an [`Action`]), and the caller reports the
//! response ([`Crawler::on_page`]) or the transport failure
//! ([`Crawler::on_failure`]) back.  The engine folds paginated responses
//! into one logical result set per node, records every newly seen target in
//! the node table, and queues exactly the newly recorded targets for later
//! expansion, so each node is expanded at most once and the crawl
//! terminates on every finite graph, cycles included.
//!
//! A failed browse or browse-next is fatal only for the node being
//! expanded: the failure is recorded and the crawl goes on with the nodes
//! already queued, so one bad node does not stop the traversal of an
//! otherwise healthy graph.

use vstd::prelude::*;

use crate::node::{
    NodeClass, NodeId, NodeIdView, NodeRecord, NodeRecordView, ReferenceDescription,
    ReferenceDescriptionView, record_of,
};
use crate::table::NodeTable;

verus! {

/// What the caller must do next to move the crawl forward.
pub enum Action {
    /// Issue a browse request for this node and report the first page back.
    Browse(NodeId),
    /// Present this continuation token to the server's browse-next
    /// operation and report the next page back.
    BrowseNext(Vec<u8>),
    /// Every discovered node has been expanded; the table is complete.
    Finished,
}

/// A per-node failure, recorded when a browse or browse-next call for that
/// node could not be completed.
pub struct BrowseError {
    pub node_id: NodeId,
    pub cause: String,
}

/// Mathematical image of a [`BrowseError`].
pub ghost struct BrowseErrorView {
    pub node_id: NodeIdView,
    pub cause: Seq<char>,
}

impl View for BrowseError {
    type V = BrowseErrorView;

    open spec fn view(&self) -> BrowseErrorView {
        BrowseErrorView { node_id: self.node_id@, cause: self.cause@ }
    }
}

/// Where the engine stands: waiting for the next node to be picked, or
/// collecting the pages of one node's browse result.
pub enum Phase {
    Idle,
    Expanding { node: NodeId, acc: Vec<ReferenceDescription> },
}

/// The views of a sequence of reference descriptions.
pub open spec fn views_of_refs(s: Seq<ReferenceDescription>) -> Seq<ReferenceDescriptionView> {
    s.map_values(|r: ReferenceDescription| r@)
}

/// The views of a sequence of node identities.
pub open spec fn views_of_ids(s: Seq<NodeId>) -> Seq<NodeIdView> {
    s.map_values(|n: NodeId| n@)
}

/// The targets of a sequence of references.
pub open spec fn targets_of(rs: Seq<ReferenceDescriptionView>) -> Seq<NodeIdView> {
    rs.map_values(|r: ReferenceDescriptionView| r.target)
}

/// The node identities of a sequence of failures.
pub open spec fn failure_ids(es: Seq<BrowseErrorView>) -> Seq<NodeIdView> {
    es.map_values(|e: BrowseErrorView| e.node_id)
}

/// The node identities of the recorded failures, in the order the
/// failures happened.
pub open spec fn error_ids(c: Crawler) -> Seq<NodeIdView> {
    failure_ids(c.error_views())
}

/// The record under which a node is seeded before anything is known about
/// it; only the crawl root is recorded this way.
pub open spec fn seed_record() -> NodeRecordView {
    NodeRecordView {
        node_class: NodeClass::Unspecified,
        display_name: Seq::<char>::empty(),
        type_definition: NodeId::spec_null(),
    }
}

/// One step of the deduplicating fold: a reference whose target is already
/// in the table changes nothing; a fresh target is recorded and queued.
pub open spec fn commit_one(
    t: Map<NodeIdView, NodeRecordView>,
    q: Seq<NodeIdView>,
    r: ReferenceDescriptionView,
) -> (Map<NodeIdView, NodeRecordView>, Seq<NodeIdView>) {
    if t.dom().contains(r.target) {
        (t, q)
    } else {
        (t.insert(r.target, record_of(r)), q.push(r.target))
    }
}

/// The deduplicating fold of a whole reference list, in order.
pub open spec fn committed(
    t: Map<NodeIdView, NodeRecordView>,
    q: Seq<NodeIdView>,
    refs: Seq<ReferenceDescriptionView>,
) -> (Map<NodeIdView, NodeRecordView>, Seq<NodeIdView>)
    decreases refs.len(),
{
    if refs.len() == 0 {
        (t, q)
    } else {
        let tq = commit_one(t, q, refs[0]);
        committed(tq.0, tq.1, refs.skip(1))
    }
}

/// A node reachable from two distinct parents is expanded at most once.
/// Whichever parent's reference is folded first performs the insert; by
/// the time any later reference to the same target is folded — from the
/// other parent, or from a cycle back to an ancestor — the target is
/// already recorded, so the fold leaves its record exactly as first
/// written and does not queue it again: no second browse is ever directed
/// at it.
pub proof fn lemma_no_second_expansion(
    t: Map<NodeIdView, NodeRecordView>,
    q: Seq<NodeIdView>,
    refs: Seq<ReferenceDescriptionView>,
    k: NodeIdView,
)
    requires
        t.dom().contains(k),
    ensures
        committed(t, q, refs).0.dom().contains(k),
        committed(t, q, refs).0[k] == t[k],
        !q.contains(k) ==> !committed(t, q, refs).1.contains(k),
    decreases refs.len(),
{
    if refs.len() == 0 {
    } else {
        let tq = commit_one(t, q, refs[0]);
        lemma_no_second_expansion(tq.0, tq.1, refs.skip(1), k);
        if !t.dom().contains(refs[0].target) && !q.contains(k) {
            assert(refs[0].target != k);
            assert(!q.push(refs[0].target).contains(k)) by {
                if q.push(refs[0].target).contains(k) {
                    let i = choose|i: int|
                        0 <= i < q.push(refs[0].target).len() && q.push(refs[0].target)[i] == k;
                    assert(q[i] == k);
                }
            }
        }
    }
}

/// The browse engine's state: the node table built so far, the queue of
/// recorded-but-not-yet-expanded nodes, the per-node failures, and the
/// node currently being expanded, if any.  The ghost `expanded` sequence
/// lists, in order, every node for which a browse was ever directed; the
/// engine keeps it free of duplicates, which is the sense in which no node
/// is expanded twice.
pub struct Crawler {
    pub table: NodeTable,
    pub queue: Vec<NodeId>,
    pub errors: Vec<BrowseError>,
    pub phase: Phase,
    pub expanded: Ghost<Seq<NodeIdView>>,
}

impl Crawler {
    pub open spec fn queue_views(&self) -> Seq<NodeIdView> {
        views_of_ids(self.queue@)
    }

    pub open spec fn error_views(&self) -> Seq<BrowseErrorView> {
        self.errors@.map_values(|e: BrowseError| e@)
    }

    pub open spec fn is_idle(&self) -> bool {
        self.phase is Idle
    }

    pub open spec fn is_expanding(&self) -> bool {
        self.phase is Expanding
    }

    /// The node whose pages are being collected; meaningful only while
    /// expanding.
    pub open spec fn cur_node(&self) -> NodeIdView {
        match self.phase {
            Phase::Expanding { node, .. } => node@,
            Phase::Idle => NodeId::spec_null(),
        }
    }

    /// The references collected so far for the node being expanded.
    pub open spec fn cur_acc(&self) -> Seq<ReferenceDescriptionView> {
        match self.phase {
            Phase::Expanding { acc, .. } => views_of_refs(acc@),
            Phase::Idle => Seq::<ReferenceDescriptionView>::empty(),
        }
    }

    /// The engine's invariant.  The queue and the expanded history are
    /// duplicate-free, both list only recorded nodes, no node is in both,
    /// every recorded node is in one of the two, and the node being
    /// expanded is the most recently expanded one.
    pub open spec fn wf(&self) -> bool {
        &&& self.table.wf()
        &&& self.queue_views().no_duplicates()
        &&& self.expanded@.no_duplicates()
        &&& forall|i: int|
            0 <= i < self.queue_views().len() ==> self.table@.dom().contains(
                #[trigger] self.queue_views()[i],
            )
        &&& forall|i: int|
            0 <= i < self.expanded@.len() ==> self.table@.dom().contains(
                #[trigger] self.expanded@[i],
            )
        &&& forall|k: NodeIdView| #[trigger]
            self.table@.dom().contains(k) ==> self.queue_views().contains(k)
                || self.expanded@.contains(k)
        &&& forall|i: int|
            0 <= i < self.queue_views().len() ==> !self.expanded@.contains(
                #[trigger] self.queue_views()[i],
            )
        &&& (self.is_expanding() ==> self.expanded@.len() > 0 && self.expanded@.last()
            == self.cur_node())
    }

    /// How the engine moves on when no node is mid-expansion: it pops the
    /// most recently queued node and directs a browse at it, or reports the
    /// crawl finished.  `table`, `queue`, `errors` and `expanded` are the
    /// state the step starts from; `c` and `a` are the state and action it
    /// produces.
    pub open spec fn advances(
        table: Map<NodeIdView, NodeRecordView>,
        queue: Seq<NodeIdView>,
        errors: Seq<BrowseErrorView>,
        expanded: Seq<NodeIdView>,
        c: Crawler,
        a: Action,
    ) -> bool {
        &&& c.table@ == table
        &&& c.error_views() == errors
        &&& if queue.len() == 0 {
            &&& a is Finished
            &&& c.is_idle()
            &&& c.queue_views() == queue
            &&& c.expanded@ == expanded
        } else {
            &&& (a matches Action::Browse(m) && m@ == queue.last())
            &&& c.is_expanding()
            &&& c.cur_node() == queue.last()
            &&& c.cur_acc() == Seq::<ReferenceDescriptionView>::empty()
            &&& c.queue_views() == queue.drop_last()
            &&& c.expanded@ == expanded.push(queue.last())
        }
    }

    /// Start a crawl rooted at `root`: the root is recorded under a seed
    /// record and queued as the first node to expand.
    pub fn new(root: NodeId) -> (c: Crawler)
        ensures
            c.wf(),
            c.is_idle(),
            c.table@ == Map::<NodeIdView, NodeRecordView>::empty().insert(root@, seed_record()),
            c.queue_views() == seq![root@],
            c.error_views() == Seq::<BrowseErrorView>::empty(),
            c.expanded@ == Seq::<NodeIdView>::empty(),
    {
        let rootc = root.clone_id();
        let mut table = NodeTable::new();
        let seed = NodeRecord {
            node_class: NodeClass::Unspecified,
            display_name: String::new(),
            type_definition: NodeId::null(),
        };
        let _ = table.insert_if_absent(root, seed);
        let mut queue: Vec<NodeId> = Vec::new();
        queue.push(rootc);
        let c = Crawler {
            table,
            queue,
            errors: Vec::new(),
            phase: Phase::Idle,
            expanded: Ghost(Seq::<NodeIdView>::empty()),
        };
        proof {
            assert(c.queue_views() =~= seq![c.queue@[0]@]);
            assert(c.error_views() =~= Seq::<BrowseErrorView>::empty());
            assert forall|k: NodeIdView| #[trigger]
                c.table@.dom().contains(k) implies c.queue_views().contains(k)
                || c.expanded@.contains(k) by {
                assert(c.queue_views()[0] == k);
            }
        }
        c
    }

    /// Pick the next node to expand, or report the crawl finished.
    pub fn next(&mut self) -> (a: Action)
        requires
            old(self).wf(),
            old(self).is_idle(),
        ensures
            final(self).wf(),
            Crawler::advances(
                old(self).table@,
                old(self).queue_views(),
                old(self).error_views(),
                old(self).expanded@,
                *final(self),
                a,
            ),
    {
        let ghost q0 = self.queue_views();
        match self.queue.pop() {
            None => {
                proof {
                    assert(q0.len() == 0);
                }
                Action::Finished
            },
            Some(n) => {
                let ghost nv = n@;
                let m = n.clone_id();
                self.phase = Phase::Expanding { node: n, acc: Vec::new() };
                proof {
                    self.expanded@ = self.expanded@.push(nv);
                    assert(q0[q0.len() - 1] == nv);
                    assert(q0.contains(nv));
                    assert(self.queue_views() =~= q0.drop_last());
                    assert(self.cur_acc() =~= Seq::<ReferenceDescriptionView>::empty());
                    assert forall|i: int| 0 <= i < self.queue_views().len() implies !self
                        .expanded@.contains(#[trigger] self.queue_views()[i]) by {
                        assert(self.queue_views()[i] == q0[i]);
                        assert(q0[i] != nv);
                    }
                    assert forall|k: NodeIdView| #[trigger]
                        self.table@.dom().contains(k) implies self.queue_views().contains(k)
                        || self.expanded@.contains(k) by {
                        if q0.contains(k) {
                            let i = choose|i: int| 0 <= i < q0.len() && q0[i] == k;
                            if i < q0.len() - 1 {
                                assert(self.queue_views()[i] == k);
                            } else {
                                assert(self.expanded@.last() == k);
                            }
                        } else {
                            assert(old(self).expanded@.contains(k));
                            let i = choose|i: int|
                                0 <= i < old(self).expanded@.len() && old(self).expanded@[i] == k;
                            assert(self.expanded@[i] == k);
                        }
                    }
                }
                Action::Browse(m)
            },
        }
    }

    /// Report one page of the browse result for the node being expanded.
    ///
    /// A page that carries a non-empty continuation token is not the end of
    /// the node's result set: the references are folded into the running
    /// accumulation, nothing is committed, and the caller is directed to
    /// present the token to the server's browse-next operation.  Only when
    /// a page carries an empty token is the accumulated reference list —
    /// the concatenation of every page, nothing lost, nothing added —
    /// committed: each target not yet in the table is recorded and queued,
    /// already-present targets are left exactly as they were.
    pub fn on_page(&mut self, refs: Vec<ReferenceDescription>, token: Vec<u8>) -> (a: Action)
        requires
            old(self).wf(),
            old(self).is_expanding(),
        ensures
            final(self).wf(),
            token@.len() > 0 ==> {
                &&& (a matches Action::BrowseNext(t) && t@ == token@)
                &&& final(self).is_expanding()
                &&& final(self).cur_node() == old(self).cur_node()
                &&& final(self).cur_acc() == old(self).cur_acc() + views_of_refs(refs@)
                &&& final(self).table@ == old(self).table@
                &&& final(self).queue_views() == old(self).queue_views()
                &&& final(self).expanded@ == old(self).expanded@
                &&& final(self).error_views() == old(self).error_views()
            },
            token@.len() == 0 ==> {
                let tq = committed(
                    old(self).table@,
                    old(self).queue_views(),
                    old(self).cur_acc() + views_of_refs(refs@),
                );
                Crawler::advances(
                    tq.0,
                    tq.1,
                    old(self).error_views(),
                    old(self).expanded@,
                    *final(self),
                    a,
                )
            },
    {
        let ghost refs0 = views_of_refs(refs@);
        let mut ph = Phase::Idle;
        core::mem::swap(&mut self.phase, &mut ph);
        match ph {
            Phase::Idle => unreached(),
            Phase::Expanding { node, mut acc } => {
                let ghost acc0 = views_of_refs(acc@);
                proof {
                    assert(acc0 == old(self).cur_acc());
                }
                let mut refs = refs;
                acc.append(&mut refs);
                proof {
                    assert(views_of_refs(acc@) =~= acc0 + refs0);
                }
                if token.len() > 0 {
                    self.phase = Phase::Expanding { node, acc };
                    proof {
                        assert(self.cur_node() == old(self).cur_node());
                        assert(self.queue_views() =~= old(self).queue_views());
                    }
                    Action::BrowseNext(token)
                } else {
                    self.commit(acc);
                    self.next()
                }
            },
        }
    }

    /// Report that the browse or browse-next call for the node being
    /// expanded failed.  The node's partial result set is discarded — it
    /// would be incomplete — a failure naming the node is recorded, and
    /// the crawl moves on to the nodes already queued: the failure is
    /// isolated to this node.
    pub fn on_failure(&mut self, cause: String) -> (a: Action)
        requires
            old(self).wf(),
            old(self).is_expanding(),
        ensures
            final(self).wf(),
            final(self).error_views() == old(self).error_views().push(
                BrowseErrorView { node_id: old(self).cur_node(), cause: cause@ },
            ),
            Crawler::advances(
                old(self).table@,
                old(self).queue_views(),
                final(self).error_views(),
                old(self).expanded@,
                *final(self),
                a,
            ),
    {
        let mut ph = Phase::Idle;
        core::mem::swap(&mut self.phase, &mut ph);
        match ph {
            Phase::Idle => unreached(),
            Phase::Expanding { node, acc: _ } => {
                self.errors.push(BrowseError { node_id: node, cause });
                proof {
                    assert(self.error_views() =~= old(self).error_views().push(
                        BrowseErrorView { node_id: old(self).cur_node(), cause: cause@ },
                    ));
                    assert(self.queue_views() =~= old(self).queue_views());
                }
                self.next()
            },
        }
    }

    /// Fold a completed reference list into the table and queue: each
    /// target seen for the first time is recorded and queued, every other
    /// reference changes nothing.
    fn commit(&mut self, acc: Vec<ReferenceDescription>)
        requires
            old(self).wf(),
            old(self).is_idle(),
        ensures
            final(self).wf(),
            final(self).is_idle(),
            (final(self).table@, final(self).queue_views()) == committed(
                old(self).table@,
                old(self).queue_views(),
                views_of_refs(acc@),
            ),
            final(self).error_views() == old(self).error_views(),
            final(self).expanded@ == old(self).expanded@,
    {
        let ghost t0 = self.table@;
        let ghost q0 = self.queue_views();
        let ghost folded = views_of_refs(acc@);
        let n = acc.len();
        proof {
            assert(folded.skip(0) =~= folded);
        }
        let mut i: usize = 0;
        while i < n
            invariant
                i <= n,
                n == acc.len(),
                folded == views_of_refs(acc@),
                self.wf(),
                self.is_idle(),
                committed(t0, q0, folded) == committed(
                    self.table@,
                    self.queue_views(),
                    folded.skip(i as int),
                ),
                self.error_views() == old(self).error_views(),
                self.expanded@ == old(self).expanded@,
            decreases n - i,
        {
            let ghost t_pre = self.table@;
            let ghost q_pre = self.queue_views();
            let target = acc[i].target.clone_id();
            let queued = acc[i].target.clone_id();
            let rec = acc[i].to_record();
            let fresh = self.table.insert_if_absent(target, rec);
            if fresh {
                proof {
                    assert(!self.expanded@.contains(folded[i as int].target));
                }
                self.queue.push(queued);
                proof {
                    assert(self.queue_views() =~= q_pre.push(folded[i as int].target));
                    assert forall|j: int|
                        0 <= j < self.queue_views().len() implies self.table@.dom().contains(
                        #[trigger] self.queue_views()[j],
                    ) by {
                        if j < q_pre.len() {
                            assert(q_pre[j] == self.queue_views()[j]);
                        }
                    }
                    assert forall|k: NodeIdView| #[trigger]
                        self.table@.dom().contains(k) implies self.queue_views().contains(k)
                        || self.expanded@.contains(k) by {
                        if k == folded[i as int].target {
                            assert(self.queue_views().last() == k);
                        } else {
                            assert(t_pre.dom().contains(k));
                            if q_pre.contains(k) {
                                let j = choose|j: int| 0 <= j < q_pre.len() && q_pre[j] == k;
                                assert(self.queue_views()[j] == k);
                            }
                        }
                    }
                }
            }
            proof {
                assert(commit_one(t_pre, q_pre, folded[i as int]) == (
                    self.table@,
                    self.queue_views(),
                ));
                assert(folded.skip(i as int)[0] == folded[i as int]);
                assert(folded.skip(i as int).skip(1) =~= folded.skip(i as int + 1));
            }
            i = i + 1;
        }
        proof {
            assert(folded.skip(n as int) =~= Seq::<ReferenceDescriptionView>::empty());
        }
    }
}

} // verus!
