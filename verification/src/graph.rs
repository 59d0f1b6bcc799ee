//! A whole crawl, run against a graph held in memory.
//!
//! The engine in [`crate::engine`] is driven one response at a time by
//! whoever owns the transport.  When the graph is available as plain data —
//! each node with its pages of references, or marked as failing — the crawl
//! can be run to completion right here, and what the crawl guarantees can
//! be stated once and for all: it terminates on every finite graph, cycles
//! and shared subtrees included; the finished table holds exactly the
//! reachable nodes, each expanded exactly once; and every reachable failing
//! node contributes exactly one entry to the failure list while the rest of
//! the graph is still traversed.

use vstd::prelude::*;

use crate::engine::{
    committed, error_ids, failure_ids, targets_of, views_of_refs, Action, BrowseErrorView,
    Crawler,
};
use crate::node::{
    NodeId, NodeIdView, NodeRecordView, ReferenceDescription, ReferenceDescriptionView,
};

verus! {

/// One node of a graph held in memory: its identity, the pages its browse
/// result is split into, or the mark that browsing it fails.
pub struct GraphNode {
    pub id: NodeId,
    pub pages: Vec<Vec<ReferenceDescription>>,
    pub failing: bool,
}

/// A finite node graph held in memory.  A reference may target a node that
/// has no entry of its own; browsing such a node yields no references.
/// When two entries carry the same identity, the first is the one browsed.
pub struct Graph {
    pub nodes: Vec<GraphNode>,
}

/// The entry under which `id` is browsed: the first with that identity.
pub open spec fn find_node(g: Seq<GraphNode>, id: NodeIdView) -> Option<GraphNode>
    decreases g.len(),
{
    if g.len() == 0 {
        None
    } else if g[0].id@ == id {
        Some(g[0])
    } else {
        find_node(g.skip(1), id)
    }
}

/// Whether browsing `id` fails.
pub open spec fn is_failing(g: Seq<GraphNode>, id: NodeIdView) -> bool {
    match find_node(g, id) {
        Some(n) => n.failing,
        None => false,
    }
}

/// All references of a node, every page folded in order into one list.
pub open spec fn pages_refs(ps: Seq<Vec<ReferenceDescription>>) -> Seq<ReferenceDescriptionView>
    decreases ps.len(),
{
    if ps.len() == 0 {
        Seq::<ReferenceDescriptionView>::empty()
    } else {
        pages_refs(ps.drop_last()) + views_of_refs(ps.last()@)
    }
}

/// A result set split across pages folds into exactly the pages'
/// references laid end to end: folding one more page appends that page's
/// references and nothing else, so across all pages nothing is lost and
/// nothing is repeated.
pub proof fn lemma_fold_appends_page(ps: Seq<Vec<ReferenceDescription>>, k: int)
    requires
        0 <= k < ps.len(),
    ensures
        pages_refs(ps.take(k + 1)) == pages_refs(ps.take(k)) + views_of_refs(ps[k]@),
{
    assert(ps.take(k + 1).drop_last() =~= ps.take(k));
    assert(ps.take(k + 1).last() == ps[k]);
}

/// The targets a browse of `id` reveals: none when the node is absent or
/// failing, otherwise the targets of all its pages' references.
pub open spec fn succ(g: Seq<GraphNode>, id: NodeIdView) -> Seq<NodeIdView> {
    match find_node(g, id) {
        None => Seq::<NodeIdView>::empty(),
        Some(n) => if n.failing {
            Seq::<NodeIdView>::empty()
        } else {
            targets_of(pages_refs(n.pages@))
        },
    }
}

/// A walk from `root` along browse-revealed references.
pub open spec fn is_path(g: Seq<GraphNode>, root: NodeIdView, p: Seq<NodeIdView>) -> bool {
    &&& p.len() > 0
    &&& p[0] == root
    &&& forall|i: int| 0 <= i < p.len() - 1 ==> succ(g, p[i]).contains(#[trigger] p[i + 1])
}

/// A node the crawl can discover: the root itself, or the end of some walk
/// from the root.
pub open spec fn reachable(g: Seq<GraphNode>, root: NodeIdView, n: NodeIdView) -> bool {
    exists|p: Seq<NodeIdView>| is_path(g, root, p) && p.last() == n
}

/// Every target any entry of the graph mentions.
pub open spec fn nodes_targets(g: Seq<GraphNode>) -> Seq<NodeIdView>
    decreases g.len(),
{
    if g.len() == 0 {
        Seq::<NodeIdView>::empty()
    } else {
        targets_of(pages_refs(g[0].pages@)) + nodes_targets(g.skip(1))
    }
}

/// Every identity the crawl could ever record: the root and every target
/// mentioned anywhere.  Finite, which is why the crawl terminates.
pub open spec fn universe(g: Seq<GraphNode>, root: NodeIdView) -> Set<NodeIdView> {
    nodes_targets(g).to_set().insert(root)
}

/// The root reaches itself.
pub proof fn lemma_reachable_self(g: Seq<GraphNode>, root: NodeIdView)
    ensures
        reachable(g, root, root),
{
    let p = seq![root];
    assert(is_path(g, root, p));
    assert(p.last() == root);
}

/// A walk to `m` extends along any browse-revealed reference of `m`.
pub proof fn lemma_reachable_step(g: Seq<GraphNode>, root: NodeIdView, m: NodeIdView, t: NodeIdView)
    requires
        reachable(g, root, m),
        succ(g, m).contains(t),
    ensures
        reachable(g, root, t),
{
    let p = choose|p: Seq<NodeIdView>| is_path(g, root, p) && p.last() == m;
    let p2 = p.push(t);
    assert forall|i: int| 0 <= i < p2.len() - 1 implies succ(g, p2[i]).contains(
        #[trigger] p2[i + 1],
    ) by {
        if i < p.len() - 1 {
            assert(p2[i] == p[i]);
            assert(p2[i + 1] == p[i + 1]);
        } else {
            assert(p2[i] == p.last());
            assert(p2[i + 1] == t);
        }
    }
    assert(is_path(g, root, p2));
    assert(p2.last() == t);
}

/// Any set that holds the root and is closed under browse-revealed
/// references holds every reachable node.
pub proof fn lemma_path_end_in_closed(
    g: Seq<GraphNode>,
    root: NodeIdView,
    d: Set<NodeIdView>,
    p: Seq<NodeIdView>,
)
    requires
        d.contains(root),
        forall|m: NodeIdView, t: NodeIdView|
            d.contains(m) && #[trigger] succ(g, m).contains(t) ==> d.contains(t),
        is_path(g, root, p),
    ensures
        d.contains(p.last()),
    decreases p.len(),
{
    if p.len() == 1 {
        assert(p.last() == p[0]);
    } else {
        let p0 = p.drop_last();
        assert(is_path(g, root, p0)) by {
            assert(p0[0] == p[0]);
            assert forall|i: int| 0 <= i < p0.len() - 1 implies succ(g, p0[i]).contains(
                #[trigger] p0[i + 1],
            ) by {
                assert(p0[i] == p[i]);
                assert(p0[i + 1] == p[i + 1]);
            }
        }
        lemma_path_end_in_closed(g, root, d, p0);
        assert(p0.last() == p[p.len() - 2]);
        assert(succ(g, p[p.len() - 2]).contains(p[(p.len() - 2) + 1]));
    }
}

/// Everything a browse of any node reveals is in the graph's universe.
pub proof fn lemma_succ_in_universe(g: Seq<GraphNode>, id: NodeIdView)
    ensures
        forall|t: NodeIdView| #[trigger] succ(g, id).contains(t) ==> nodes_targets(g).contains(t),
    decreases g.len(),
{
    if g.len() == 0 {
    } else if g[0].id@ == id {
        assert forall|t: NodeIdView| #[trigger] succ(g, id).contains(t) implies nodes_targets(
            g,
        ).contains(t) by {
            let i = choose|i: int| 0 <= i < succ(g, id).len() && succ(g, id)[i] == t;
            assert(nodes_targets(g)[i] == t);
        }
    } else {
        lemma_succ_in_universe(g.skip(1), id);
        assert(succ(g, id) == succ(g.skip(1), id));
        let left = targets_of(pages_refs(g[0].pages@));
        assert forall|t: NodeIdView| #[trigger] succ(g, id).contains(t) implies nodes_targets(
            g,
        ).contains(t) by {
            let i = choose|i: int|
                0 <= i < nodes_targets(g.skip(1)).len() && nodes_targets(g.skip(1))[i] == t;
            assert(nodes_targets(g)[left.len() + i] == t);
        }
    }
}

/// What the deduplicating fold does to the table: it keeps every present
/// entry exactly as it was, and adds at most the targets of the folded
/// references, each of which is present afterwards.
pub proof fn lemma_committed_table(
    t: Map<NodeIdView, crate::node::NodeRecordView>,
    q: Seq<NodeIdView>,
    refs: Seq<ReferenceDescriptionView>,
)
    ensures
        forall|k: NodeIdView| #[trigger]
            committed(t, q, refs).0.dom().contains(k) ==> t.dom().contains(k) || targets_of(
                refs,
            ).contains(k),
        forall|k: NodeIdView| #[trigger]
            t.dom().contains(k) ==> committed(t, q, refs).0.dom().contains(k),
        forall|k: NodeIdView| #[trigger]
            t.dom().contains(k) ==> committed(t, q, refs).0[k] == t[k],
        forall|j: int|
            0 <= j < refs.len() ==> committed(t, q, refs).0.dom().contains(
                #[trigger] refs[j].target,
            ),
    decreases refs.len(),
{
    if refs.len() == 0 {
    } else {
        let tq = crate::engine::commit_one(t, q, refs[0]);
        let rest = refs.skip(1);
        lemma_committed_table(tq.0, tq.1, rest);
        assert(committed(t, q, refs) == committed(tq.0, tq.1, rest));
        assert forall|k: NodeIdView| #[trigger] t.dom().contains(k) implies committed(
            t,
            q,
            refs,
        ).0.dom().contains(k) && committed(t, q, refs).0[k] == t[k] by {
            assert(tq.0.dom().contains(k));
            assert(tq.0[k] == t[k]);
        }
        assert forall|k: NodeIdView| #[trigger]
            committed(t, q, refs).0.dom().contains(k) && !t.dom().contains(k) implies targets_of(
            refs,
        ).contains(k) by {
            if tq.0.dom().contains(k) {
                assert(k == refs[0].target);
                assert(targets_of(refs)[0] == k);
            } else {
                assert(targets_of(rest).contains(k));
                let i = choose|i: int|
                    0 <= i < targets_of(rest).len() && targets_of(rest)[i] == k;
                assert(rest[i].target == k);
                assert(refs[i + 1] == rest[i]);
                assert(targets_of(refs)[i + 1] == k);
            }
        }
        assert forall|j: int| 0 <= j < refs.len() implies committed(t, q, refs).0.dom().contains(
            #[trigger] refs[j].target,
        ) by {
            if j == 0 {
                assert(tq.0.dom().contains(refs[0].target));
            } else {
                assert(rest[j - 1] == refs[j]);
            }
        }
    }
}

/// The discovery bookkeeping the crawl maintains: the root and everything
/// else recorded is reachable and inside the universe, and every node
/// whose expansion is over has all its browse-revealed targets recorded.
pub open spec fn discovery_ok(g: Seq<GraphNode>, root: NodeIdView, c: Crawler) -> bool {
    &&& c.table@.dom().contains(root)
    &&& forall|k: NodeIdView| #[trigger]
        c.table@.dom().contains(k) ==> universe(g, root).contains(k)
    &&& forall|k: NodeIdView| #[trigger] c.table@.dom().contains(k) ==> reachable(g, root, k)
    &&& forall|m: NodeIdView, t: NodeIdView|
        c.expanded@.contains(m) && (c.is_idle() || m != c.cur_node()) && #[trigger] succ(
            g,
            m,
        ).contains(t) ==> c.table@.dom().contains(t)
}

/// The failure bookkeeping the crawl maintains: failures name distinct,
/// recorded, failing nodes, all of them expanded, none of them the node
/// still being expanded; and every failing node whose expansion is over
/// has its failure recorded.
pub open spec fn errors_ok(g: Seq<GraphNode>, c: Crawler) -> bool {
    &&& error_ids(c).no_duplicates()
    &&& forall|j: int|
        0 <= j < error_ids(c).len() ==> c.table@.dom().contains(#[trigger] error_ids(c)[j])
            && is_failing(g, error_ids(c)[j])
    &&& forall|j: int|
        0 <= j < error_ids(c).len() ==> c.expanded@.contains(#[trigger] error_ids(c)[j])
    &&& forall|j: int|
        0 <= j < error_ids(c).len() ==> !(c.is_expanding() && #[trigger] error_ids(c)[j]
            == c.cur_node())
    &&& forall|m: NodeIdView| #[trigger]
        c.expanded@.contains(m) && (c.is_idle() || m != c.cur_node()) && is_failing(g, m)
            ==> error_ids(c).contains(m)
}

/// How many responses the expansion of `id` still takes once a browse has
/// been directed at it: one for an absent, failing or page-less node,
/// otherwise one per page.
pub open spec fn spec_pages_len(g: Seq<GraphNode>, id: NodeIdView) -> int {
    match find_node(g, id) {
        None => 1,
        Some(n) => if n.failing || n.pages@.len() == 0 {
            1
        } else {
            n.pages@.len() as int
        },
    }
}

/// The crawl measure's second component: responses still owed for the
/// expansion in progress.
pub open spec fn step_measure(g: Seq<GraphNode>, a: Action, c: Crawler, page_k: int) -> int {
    match a {
        Action::Finished => 0,
        Action::Browse(n) => spec_pages_len(g, n@),
        Action::BrowseNext(_) => spec_pages_len(g, c.cur_node()) - page_k,
    }
}

/// Folding the completed reference list of the node being expanded keeps
/// every recorded node reachable and inside the universe, and closes the
/// expansion of that node: all its browse-revealed targets are recorded.
proof fn lemma_commit_bookkeeping(
    g: Seq<GraphNode>,
    rootv: NodeIdView,
    pre: Crawler,
    folded: Seq<ReferenceDescriptionView>,
)
    requires
        pre.wf(),
        pre.is_expanding(),
        discovery_ok(g, rootv, pre),
        targets_of(folded) == succ(g, pre.cur_node()),
    ensures
        ({
            let t2 = committed(pre.table@, pre.queue_views(), folded).0;
            &&& t2.dom().contains(rootv)
            &&& forall|k: NodeIdView| #[trigger]
                pre.table@.dom().contains(k) ==> t2.dom().contains(k)
            &&& forall|k: NodeIdView| #[trigger]
                t2.dom().contains(k) ==> universe(g, rootv).contains(k)
            &&& forall|k: NodeIdView| #[trigger] t2.dom().contains(k) ==> reachable(g, rootv, k)
            &&& forall|m: NodeIdView, t: NodeIdView|
                pre.expanded@.contains(m) && #[trigger] succ(g, m).contains(t)
                    ==> t2.dom().contains(t)
        }),
{
    let mv = pre.cur_node();
    let t0 = pre.table@;
    let q0 = pre.queue_views();
    let t2 = committed(t0, q0, folded).0;
    lemma_committed_table(t0, q0, folded);
    lemma_succ_in_universe(g, mv);
    assert(pre.expanded@.contains(mv)) by {
        assert(pre.expanded@[pre.expanded@.len() - 1] == mv);
    }
    assert(t0.dom().contains(mv));
    assert forall|k: NodeIdView| #[trigger] t2.dom().contains(k) implies universe(
        g,
        rootv,
    ).contains(k) by {
        if !t0.dom().contains(k) {
            assert(targets_of(folded).contains(k));
            assert(nodes_targets(g).contains(k));
            assert(nodes_targets(g).to_set().contains(k));
        }
    }
    assert forall|k: NodeIdView| #[trigger] t2.dom().contains(k) implies reachable(
        g,
        rootv,
        k,
    ) by {
        if !t0.dom().contains(k) {
            assert(targets_of(folded).contains(k));
            lemma_reachable_step(g, rootv, mv, k);
        }
    }
    assert forall|m: NodeIdView, t: NodeIdView|
        pre.expanded@.contains(m) && #[trigger] succ(g, m).contains(t) implies t2.dom().contains(
        t,
    ) by {
        if m == mv {
            let j = choose|j: int|
                0 <= j < targets_of(folded).len() && targets_of(folded)[j] == t;
            assert(folded[j].target == t);
        } else {
            assert(t0.dom().contains(t));
        }
    }
}

/// Once the engine pops the next node to expand, or reports the crawl
/// finished, the crawl's bookkeeping holds of the new state and the crawl
/// measure shrinks.
proof fn lemma_after_advance(
    g: Seq<GraphNode>,
    rootv: NodeIdView,
    u: Set<NodeIdView>,
    t2: Map<NodeIdView, NodeRecordView>,
    q2: Seq<NodeIdView>,
    errs2: Seq<BrowseErrorView>,
    exp: Seq<NodeIdView>,
    post: Crawler,
    a: Action,
)
    requires
        u == universe(g, rootv),
        u.finite(),
        post.wf(),
        Crawler::advances(t2, q2, errs2, exp, post, a),
        t2.dom().contains(rootv),
        forall|k: NodeIdView| #[trigger] t2.dom().contains(k) ==> u.contains(k),
        forall|k: NodeIdView| #[trigger] t2.dom().contains(k) ==> reachable(g, rootv, k),
        forall|m: NodeIdView, t: NodeIdView|
            exp.contains(m) && #[trigger] succ(g, m).contains(t) ==> t2.dom().contains(t),
        failure_ids(errs2).no_duplicates(),
        forall|j: int|
            0 <= j < failure_ids(errs2).len() ==> exp.contains(#[trigger] failure_ids(errs2)[j]),
        forall|j: int|
            0 <= j < failure_ids(errs2).len() ==> t2.dom().contains(
                #[trigger] failure_ids(errs2)[j],
            ) && is_failing(g, failure_ids(errs2)[j]),
        forall|m: NodeIdView| #[trigger]
            exp.contains(m) && is_failing(g, m) ==> failure_ids(errs2).contains(m),
    ensures
        discovery_ok(g, rootv, post),
        errors_ok(g, post),
        a is Browse ==> u.difference(post.expanded@.to_set()).len() < u.difference(
            exp.to_set(),
        ).len(),
        a is Browse ==> post.is_expanding() && post.cur_acc()
            == Seq::<ReferenceDescriptionView>::empty(),
        a is Finished ==> post.expanded@ == exp && post.is_idle() && post.queue@.len() == 0,
        !(a is BrowseNext),
{
    if q2.len() == 0 {
        assert(post.queue_views().len() == 0);
        assert(post.queue@.len() == 0);
    } else {
        let m2 = q2.last();
        assert(post.expanded@ == exp.push(m2));
        assert(post.expanded@.last() == m2);
        assert(!exp.contains(m2)) by {
            if exp.contains(m2) {
                let i = choose|i: int| 0 <= i < exp.len() && exp[i] == m2;
                assert(post.expanded@[i] == m2);
                assert(post.expanded@[post.expanded@.len() - 1] == m2);
            }
        }
        assert(t2.dom().contains(m2)) by {
            assert(post.table@.dom().contains(post.expanded@[post.expanded@.len() - 1]));
        }
        assert forall|m: NodeIdView, t: NodeIdView|
            post.expanded@.contains(m) && (post.is_idle() || m != post.cur_node())
                && #[trigger] succ(g, m).contains(t) implies post.table@.dom().contains(t) by {
            let i = choose|i: int| 0 <= i < post.expanded@.len() && post.expanded@[i] == m;
            if i < exp.len() {
                assert(exp[i] == m);
                assert(exp.contains(m));
            } else {
                assert(m == m2);
            }
        }
        assert forall|j: int|
            0 <= j < error_ids(post).len() implies post.expanded@.contains(
            #[trigger] error_ids(post)[j],
        ) by {
            assert(failure_ids(errs2)[j] == error_ids(post)[j]);
            assert(exp.contains(error_ids(post)[j]));
            let i = choose|i: int| 0 <= i < exp.len() && exp[i] == error_ids(post)[j];
            assert(post.expanded@[i] == error_ids(post)[j]);
        }
        assert forall|j: int|
            0 <= j < error_ids(post).len() implies !(post.is_expanding()
            && #[trigger] error_ids(post)[j] == post.cur_node()) by {
            assert(exp.contains(error_ids(post)[j]));
        }
        assert forall|m: NodeIdView| #[trigger]
            post.expanded@.contains(m) && (post.is_idle() || m != post.cur_node())
                && is_failing(g, m) implies error_ids(post).contains(m) by {
            let i = choose|i: int| 0 <= i < post.expanded@.len() && post.expanded@[i] == m;
            if i < exp.len() {
                assert(exp[i] == m);
                assert(exp.contains(m));
                assert(failure_ids(errs2).contains(m));
            } else {
                assert(m == m2);
            }
        }
        broadcast use vstd::prelude::Seq::lemma_to_set_insert_commutes;

        assert(exp.push(m2) =~= exp + seq![m2]);
        assert(post.expanded@.to_set() =~= exp.to_set().insert(m2));
        u.lemma_set_insert_diff_decreases(exp.to_set(), m2);
    }
}

/// Whether the action says the crawl is complete.
pub fn is_finished(a: &Action) -> (r: bool)
    ensures
        r == (a is Finished),
{
    match a {
        Action::Finished => true,
        _ => false,
    }
}

/// The entry under which `id` is browsed, if any: the first with that
/// identity.
fn find_index(graph: &Graph, id: &NodeId) -> (r: Option<usize>)
    ensures
        match r {
            None => find_node(graph.nodes@, id@) is None,
            Some(j) => {
                &&& j < graph.nodes@.len()
                &&& graph.nodes@[j as int].id@ == id@
                &&& find_node(graph.nodes@, id@) == Some(graph.nodes@[j as int])
            },
        },
{
    let ghost g = graph.nodes@;
    proof {
        assert(g.skip(0) =~= g);
    }
    let n = graph.nodes.len();
    let mut i: usize = 0;
    while i < n
        invariant
            i <= n,
            n == graph.nodes@.len(),
            g == graph.nodes@,
            find_node(g, id@) == find_node(g.skip(i as int), id@),
        decreases n - i,
    {
        if graph.nodes[i].id.eq_id(id) {
            proof {
                assert(g.skip(i as int)[0] == g[i as int]);
            }
            return Some(i);
        }
        proof {
            assert(g.skip(i as int)[0] == g[i as int]);
            assert(g.skip(i as int).skip(1) =~= g.skip(i as int + 1));
        }
        i = i + 1;
    }
    proof {
        assert(g.skip(n as int) =~= Seq::<GraphNode>::empty());
    }
    None
}

/// A structural copy of one page of references.
fn clone_page(p: &Vec<ReferenceDescription>) -> (r: Vec<ReferenceDescription>)
    ensures
        views_of_refs(r@) == views_of_refs(p@),
{
    let mut r: Vec<ReferenceDescription> = Vec::new();
    let mut i: usize = 0;
    while i < p.len()
        invariant
            i <= p.len(),
            r@.len() == i,
            forall|j: int| 0 <= j < i ==> r@[j]@ == p@[j]@,
        decreases p.len() - i,
    {
        let d = ReferenceDescription {
            target: p[i].target.clone_id(),
            node_class: p[i].node_class,
            browse_name: p[i].browse_name.clone(),
            type_definition: p[i].type_definition.clone_id(),
        };
        proof {
            assert(d@ == p@[i as int]@);
        }
        r.push(d);
        i = i + 1;
    }
    proof {
        assert forall|j: int| 0 <= j < p@.len() implies views_of_refs(r@)[j] == views_of_refs(
            p@,
        )[j] by {
            assert(r@[j]@ == p@[j]@);
        }
        assert(views_of_refs(r@) =~= views_of_refs(p@));
    }
    r
}

/// A non-empty stand-in for a server's continuation token.
fn more_token() -> (t: Vec<u8>)
    ensures
        t@.len() == 1,
{
    let mut t: Vec<u8> = Vec::new();
    t.push(1);
    t
}

/// Run a whole crawl of `graph` from `root`.
///
/// On every finite graph this terminates — cycles, self-references and
/// shared subtrees included — and returns a crawler whose table holds
/// exactly the reachable nodes, each of which was expanded exactly once;
/// whose failure list names exactly the reachable failing nodes, once
/// each; and whose work is over.
pub fn crawl(graph: &Graph, root: &NodeId) -> (c: Crawler)
    ensures
        c.wf(),
        c.is_idle(),
        c.queue@.len() == 0,
        forall|n: NodeIdView| #[trigger]
            c.table@.dom().contains(n) <==> reachable(graph.nodes@, root@, n),
        c.expanded@.no_duplicates(),
        forall|n: NodeIdView| #[trigger]
            c.expanded@.contains(n) <==> c.table@.dom().contains(n),
        error_ids(c).no_duplicates(),
        forall|j: int|
            0 <= j < error_ids(c).len() ==> c.table@.dom().contains(#[trigger] error_ids(c)[j])
                && is_failing(graph.nodes@, error_ids(c)[j]),
        forall|n: NodeIdView| #[trigger]
            c.table@.dom().contains(n) && is_failing(graph.nodes@, n) ==> error_ids(c).contains(
                n,
            ),
{
    let ghost g = graph.nodes@;
    let ghost rootv = root@;
    let ghost u = universe(g, rootv);
    let mut crawler = Crawler::new(root.clone_id());
    proof {
        broadcast use vstd::seq_lib::seq_to_set_is_finite;

        assert(u.finite());
        lemma_reachable_self(g, rootv);
        assert forall|k: NodeIdView| #[trigger]
            crawler.table@.dom().contains(k) implies u.contains(k) && reachable(
            g,
            rootv,
            k,
        ) by {
            assert(k == rootv);
        }
        assert(crawler.error_views().len() == 0);
    }
    let mut action = crawler.next();
    proof {
        lemma_after_advance(
            g,
            rootv,
            u,
            crawler.table@,
            seq![rootv],
            Seq::<BrowseErrorView>::empty(),
            Seq::<NodeIdView>::empty(),
            crawler,
            action,
        );
    }
    let mut cur: usize = 0;
    let mut page_k: usize = 0;
    while !is_finished(&action)
        invariant
            g == graph.nodes@,
            rootv == root@,
            u == universe(g, rootv),
            u.finite(),
            crawler.wf(),
            discovery_ok(g, rootv, crawler),
            errors_ok(g, crawler),
            match action {
                Action::Finished => crawler.is_idle() && crawler.queue@.len() == 0,
                Action::Browse(n) => crawler.is_expanding() && n@ == crawler.cur_node()
                    && crawler.cur_acc() == Seq::<ReferenceDescriptionView>::empty(),
                Action::BrowseNext(_) => {
                    &&& crawler.is_expanding()
                    &&& cur < g.len()
                    &&& g[cur as int].id@ == crawler.cur_node()
                    &&& find_node(g, crawler.cur_node()) == Some(g[cur as int])
                    &&& !g[cur as int].failing
                    &&& 1 <= page_k < g[cur as int].pages@.len()
                    &&& crawler.cur_acc() == pages_refs(
                        g[cur as int].pages@.take(page_k as int),
                    )
                },
            },
        decreases
            u.difference(crawler.expanded@.to_set()).len(),
            step_measure(g, action, crawler, page_k as int),
    {
        let act = action;
        action = match act {
            Action::Finished => unreached(),
            Action::Browse(node) => {
                let ghost pre = crawler;
                match find_index(graph, &node) {
                    None => {
                        let ghost folded = pre.cur_acc() + views_of_refs(Seq::<
                            ReferenceDescription,
                        >::empty());
                        proof {
                            assert(targets_of(folded) =~= succ(g, pre.cur_node()));
                            lemma_commit_bookkeeping(g, rootv, pre, folded);
                        }
                        let a2 = crawler.on_page(Vec::new(), Vec::new());
                        proof {
                            lemma_after_advance(
                                g,
                                rootv,
                                u,
                                committed(pre.table@, pre.queue_views(), folded).0,
                                committed(pre.table@, pre.queue_views(), folded).1,
                                pre.error_views(),
                                pre.expanded@,
                                crawler,
                                a2,
                            );
                        }
                        a2
                    },
                    Some(j) => {
                        if graph.nodes[j].failing {
                            let ghost errs2 = pre.error_views().push(
                                BrowseErrorView {
                                    node_id: pre.cur_node(),
                                    cause: Seq::<char>::empty(),
                                },
                            );
                            proof {
                                assert(pre.expanded@.contains(pre.cur_node())) by {
                                    assert(pre.expanded@[pre.expanded@.len() - 1]
                                        == pre.cur_node());
                                }
                                assert(failure_ids(errs2) =~= failure_ids(
                                    pre.error_views(),
                                ).push(pre.cur_node()));
                                assert forall|m: NodeIdView| #[trigger]
                                    pre.expanded@.contains(m) && is_failing(g, m) implies
                                    failure_ids(errs2).contains(m) by {
                                    if m == pre.cur_node() {
                                        assert(failure_ids(errs2)[failure_ids(errs2).len() - 1]
                                            == m);
                                    } else {
                                        assert(error_ids(pre).contains(m));
                                        let i = choose|i: int|
                                            0 <= i < error_ids(pre).len() && error_ids(pre)[i]
                                                == m;
                                        assert(failure_ids(errs2)[i] == m);
                                    }
                                }
                                assert forall|jj: int|
                                    0 <= jj < failure_ids(errs2).len() implies pre.expanded@
                                    .contains(#[trigger] failure_ids(errs2)[jj]) && pre.table@
                                    .dom().contains(failure_ids(errs2)[jj]) && is_failing(
                                    g,
                                    failure_ids(errs2)[jj],
                                ) by {
                                    if jj < failure_ids(pre.error_views()).len() {
                                        assert(failure_ids(errs2)[jj] == error_ids(pre)[jj]);
                                    } else {
                                        assert(failure_ids(errs2)[jj] == pre.cur_node());
                                    }
                                }
                            }
                            let a2 = crawler.on_failure(String::new());
                            proof {
                                lemma_after_advance(
                                    g,
                                    rootv,
                                    u,
                                    pre.table@,
                                    pre.queue_views(),
                                    errs2,
                                    pre.expanded@,
                                    crawler,
                                    a2,
                                );
                            }
                            a2
                        } else if graph.nodes[j].pages.len() == 0 {
                            let ghost folded = pre.cur_acc() + views_of_refs(Seq::<
                                ReferenceDescription,
                            >::empty());
                            proof {
                                assert(pages_refs(g[j as int].pages@)
                                    =~= Seq::<ReferenceDescriptionView>::empty());
                                assert(targets_of(folded) =~= succ(g, pre.cur_node()));
                                lemma_commit_bookkeeping(g, rootv, pre, folded);
                            }
                            let a2 = crawler.on_page(Vec::new(), Vec::new());
                            proof {
                                lemma_after_advance(
                                    g,
                                    rootv,
                                    u,
                                    committed(pre.table@, pre.queue_views(), folded).0,
                                    committed(pre.table@, pre.queue_views(), folded).1,
                                    pre.error_views(),
                                    pre.expanded@,
                                    crawler,
                                    a2,
                                );
                            }
                            a2
                        } else {
                            let page = clone_page(&graph.nodes[j].pages[0]);
                            if graph.nodes[j].pages.len() > 1 {
                                let ghost folded = pre.cur_acc() + views_of_refs(page@);
                                proof {
                                    let ps = g[j as int].pages@;
                                    assert(views_of_refs(page@) == views_of_refs(ps[0]@));
                                    assert(ps.take(1).drop_last()
                                        =~= Seq::<Vec<ReferenceDescription>>::empty());
                                    assert(ps.take(1).last() == ps[0]);
                                    assert(pages_refs(ps.take(1)) == pages_refs(
                                        ps.take(1).drop_last(),
                                    ) + views_of_refs(ps.take(1).last()@));
                                    assert(pages_refs(ps.take(1).drop_last()).len() == 0);
                                    assert(folded =~= pages_refs(ps.take(1)));
                                }
                                let a2 = crawler.on_page(page, more_token());
                                cur = j;
                                page_k = 1;
                                a2
                            } else {
                                let ghost folded = pre.cur_acc() + views_of_refs(page@);
                                proof {
                                    let ps = g[j as int].pages@;
                                    assert(views_of_refs(page@) == views_of_refs(ps[0]@));
                                    assert(ps.drop_last()
                                        =~= Seq::<Vec<ReferenceDescription>>::empty());
                                    assert(ps.last() == ps[0]);
                                    assert(pages_refs(ps) == pages_refs(ps.drop_last())
                                        + views_of_refs(ps.last()@));
                                    assert(pages_refs(ps.drop_last()).len() == 0);
                                    assert(folded =~= pages_refs(ps));
                                    assert(targets_of(folded) == succ(g, pre.cur_node()));
                                    lemma_commit_bookkeeping(g, rootv, pre, folded);
                                }
                                let a2 = crawler.on_page(page, Vec::new());
                                proof {
                                    lemma_after_advance(
                                        g,
                                        rootv,
                                        u,
                                        committed(pre.table@, pre.queue_views(), folded).0,
                                        committed(pre.table@, pre.queue_views(), folded).1,
                                        pre.error_views(),
                                        pre.expanded@,
                                        crawler,
                                        a2,
                                    );
                                }
                                a2
                            }
                        }
                    },
                }
            },
            Action::BrowseNext(_) => {
                let ghost pre = crawler;
                let np = graph.nodes[cur].pages.len();
                proof {
                    assert(1 <= page_k < np);
                }
                let page = clone_page(&graph.nodes[cur].pages[page_k]);
                let last = page_k + 1 == np;
                let ghost k0 = page_k as int;
                proof {
                    lemma_fold_appends_page(g[cur as int].pages@, k0);
                }
                if last {
                    let ghost folded = pre.cur_acc() + views_of_refs(page@);
                    proof {
                        assert(g[cur as int].pages@.take(k0 + 1) =~= g[cur as int].pages@);
                        assert(folded =~= pages_refs(g[cur as int].pages@));
                        assert(targets_of(folded) == succ(g, pre.cur_node()));
                        lemma_commit_bookkeeping(g, rootv, pre, folded);
                    }
                    let a2 = crawler.on_page(page, Vec::new());
                    proof {
                        lemma_after_advance(
                            g,
                            rootv,
                            u,
                            committed(pre.table@, pre.queue_views(), folded).0,
                            committed(pre.table@, pre.queue_views(), folded).1,
                            pre.error_views(),
                            pre.expanded@,
                            crawler,
                            a2,
                        );
                    }
                    a2
                } else {
                    let ghost folded = pre.cur_acc() + views_of_refs(page@);
                    proof {
                        assert(folded =~= pages_refs(g[cur as int].pages@.take(k0 + 1)));
                    }
                    let a2 = crawler.on_page(page, more_token());
                    page_k = page_k + 1;
                    a2
                }
            },
        };
    }
    proof {
        assert forall|n: NodeIdView| reachable(g, rootv, n) implies crawler.table@
            .dom().contains(n) by {
            let p = choose|p: Seq<NodeIdView>| is_path(g, rootv, p) && p.last() == n;
            assert forall|m: NodeIdView, t: NodeIdView|
                crawler.table@.dom().contains(m) && #[trigger] succ(g, m).contains(t) implies
                crawler.table@.dom().contains(t) by {
                assert(crawler.queue_views().len() == 0);
                assert(crawler.expanded@.contains(m));
            }
            lemma_path_end_in_closed(
                g,
                rootv,
                crawler.table@.dom(),
                p,
            );
        }
        assert forall|n: NodeIdView| #[trigger]
            crawler.expanded@.contains(n) implies crawler.table@.dom().contains(n) by {
            let i = choose|i: int| 0 <= i < crawler.expanded@.len() && crawler.expanded@[i] == n;
        }
        assert forall|n: NodeIdView| #[trigger]
            crawler.table@.dom().contains(n) implies crawler.expanded@.contains(n) by {
            assert(crawler.queue_views().len() == 0);
        }
    }
    crawler
}

} // verus!
