//! Reachability in the dependency graph.

use crate::graph::DepGraph;
use crate::nodes::{DepNode, NodeMap, NodeSet};
use crate::seqs::{lemma_push_contains, lemma_push_no_duplicates};
use vstd::prelude::*;

verus! {

/// Whether `n` is reached from `roots` in at most `k` steps along `edges`,
/// never stepping onto a node of `exclude`. A root is reached in no steps;
/// where no root is excluded, nothing that is reached is.
pub open spec fn reach_in(
    edges: Set<(DepNode, DepNode)>,
    roots: Set<DepNode>,
    exclude: Set<DepNode>,
    k: nat,
    n: DepNode,
) -> bool
    decreases k,
{
    if k == 0 {
        roots.contains(n)
    } else {
        reach_in(edges, roots, exclude, (k - 1) as nat, n) || (!exclude.contains(n) && exists|
            m: DepNode,
        |
            reach_in(edges, roots, exclude, (k - 1) as nat, m) && #[trigger] edges.contains((m, n)))
    }
}

/// Whether `n` is reached from `roots` along `edges` without stepping onto
/// a node of `exclude`.
pub open spec fn reaches(
    edges: Set<(DepNode, DepNode)>,
    roots: Set<DepNode>,
    exclude: Set<DepNode>,
    n: DepNode,
) -> bool {
    exists|k: nat| reach_in(edges, roots, exclude, k, n)
}

/// The nodes reached from `roots` along `edges` outside `exclude`.
pub open spec fn reachable_set(
    edges: Set<(DepNode, DepNode)>,
    roots: Set<DepNode>,
    exclude: Set<DepNode>,
) -> Set<DepNode> {
    Set::new(|n: DepNode| reaches(edges, roots, exclude, n))
}

/// A set that holds the roots and every successor outside `exclude` of each
/// of its members holds every reached node.
pub proof fn lemma_closed_set_holds_reached(
    edges: Set<(DepNode, DepNode)>,
    roots: Set<DepNode>,
    exclude: Set<DepNode>,
    closed: Set<DepNode>,
    k: nat,
    n: DepNode,
)
    requires
        roots.subset_of(closed),
        forall|a: DepNode, b: DepNode|
            closed.contains(a) && #[trigger] edges.contains((a, b)) && !exclude.contains(b)
                ==> closed.contains(b),
        reach_in(edges, roots, exclude, k, n),
    ensures
        closed.contains(n),
    decreases k,
{
    if k > 0 {
        let j = (k - 1) as nat;
        if reach_in(edges, roots, exclude, j, n) {
            lemma_closed_set_holds_reached(edges, roots, exclude, closed, j, n);
        } else {
            let m = choose|m: DepNode|
                reach_in(edges, roots, exclude, j, m) && #[trigger] edges.contains((m, n));
            lemma_closed_set_holds_reached(edges, roots, exclude, closed, j, m);
        }
    }
}

/// A successor outside `exclude` of a reached node is reached.
pub proof fn lemma_reaches_step(
    edges: Set<(DepNode, DepNode)>,
    roots: Set<DepNode>,
    exclude: Set<DepNode>,
    m: DepNode,
    n: DepNode,
)
    requires
        reaches(edges, roots, exclude, m),
        edges.contains((m, n)),
        !exclude.contains(n),
    ensures
        reaches(edges, roots, exclude, n),
{
    let k = choose|k: nat| reach_in(edges, roots, exclude, k, m);
    assert(reach_in(edges, roots, exclude, k + 1, n));
}

/// Every root is reached.
pub proof fn lemma_reaches_root(
    edges: Set<(DepNode, DepNode)>,
    roots: Set<DepNode>,
    exclude: Set<DepNode>,
    n: DepNode,
)
    requires
        roots.contains(n),
    ensures
        reaches(edges, roots, exclude, n),
{
    assert(reach_in(edges, roots, exclude, 0, n));
}

/// Where no root is excluded, nothing that is reached is.
pub proof fn lemma_reached_not_excluded(
    edges: Set<(DepNode, DepNode)>,
    roots: Set<DepNode>,
    exclude: Set<DepNode>,
    k: nat,
    n: DepNode,
)
    requires
        roots.disjoint(exclude),
        reach_in(edges, roots, exclude, k, n),
    ensures
        !exclude.contains(n),
    decreases k,
{
    if k > 0 {
        if reach_in(edges, roots, exclude, (k - 1) as nat, n) {
            lemma_reached_not_excluded(edges, roots, exclude, (k - 1) as nat, n);
        }
    }
}

/// A traversal: the edges that it follows, the roots from which it starts
/// and the nodes onto which it does not step.
pub struct Walk {
    pub edges: Set<(DepNode, DepNode)>,
    pub roots: Set<DepNode>,
    pub exclude: Set<DepNode>,
}

impl Walk {
    /// Whether `n` is reached in at most `k` steps.
    pub open spec fn within(self, k: nat, n: DepNode) -> bool {
        reach_in(self.edges, self.roots, self.exclude, k, n)
    }

    /// Whether `a` is reached in no more steps than `b`.
    pub open spec fn no_deeper(self, a: DepNode, b: DepNode) -> bool {
        forall|k: nat| #[trigger] self.within(k, b) ==> self.within(k, a)
    }

    /// Whether `b` is reached in at most one step more than `a`.
    pub open spec fn one_deeper(self, a: DepNode, b: DepNode) -> bool {
        forall|k: nat| #[trigger] self.within(k, a) ==> self.within(k + 1, b)
    }

    /// Whether `p` is reached in fewer steps than `n`: in one step less,
    /// however few steps `n` is reached in.
    pub open spec fn steps_back(self, p: DepNode, n: DepNode) -> bool {
        forall|k: nat| #[trigger] self.within(k, n) ==> k >= 1 && self.within((k - 1) as nat, p)
    }
}

/// What is reached in some number of steps is reached in any larger number.
pub proof fn lemma_reach_later(walk: Walk, k: nat, later: nat, n: DepNode)
    requires
        walk.within(k, n),
        k <= later,
    ensures
        walk.within(later, n),
    decreases later,
{
    if k < later {
        lemma_reach_later(walk, k, (later - 1) as nat, n);
    }
}

/// A node that is reached in `k` steps and is no root has an edge from a
/// node that is reached in fewer steps, and is not excluded.
pub proof fn lemma_last_step(walk: Walk, k: nat, n: DepNode) -> (r: (nat, DepNode))
    requires
        walk.within(k, n),
        !walk.roots.contains(n),
    ensures
        r.0 < k,
        walk.within(r.0, r.1),
        walk.edges.contains((r.1, n)),
        !walk.exclude.contains(n),
    decreases k,
{
    let j = (k - 1) as nat;
    if walk.within(j, n) {
        lemma_last_step(walk, j, n)
    } else {
        let m = choose|m: DepNode|
            reach_in(walk.edges, walk.roots, walk.exclude, j, m) && #[trigger] walk.edges.contains(
                (m, n),
            );
        (j, m)
    }
}

/// Whether `m` stands in `queue` before position `head`.
pub open spec fn stands_before(queue: Seq<DepNode>, head: int, m: DepNode) -> bool {
    exists|j: int| 0 <= j < head && j < queue.len() && #[trigger] queue[j] == m
}

/// Whether every successor outside the excluded nodes of each of the
/// first `head` nodes of `queue` is in `seen`.
pub open spec fn expanded(walk: Walk, queue: Seq<DepNode>, head: int, seen: Set<DepNode>) -> bool {
    forall|j: int, c: DepNode|
        0 <= j < head && j < queue.len() && #[trigger] walk.edges.contains((queue[j], c))
            && !walk.exclude.contains(c) ==> seen.contains(c)
}

/// Whether `seen` holds the roots and exactly the nodes of `queue`.
pub open spec fn queued(walk: Walk, queue: Seq<DepNode>, seen: Set<DepNode>) -> bool {
    &&& forall|n: DepNode| #[trigger] seen.contains(n) <==> queue.contains(n)
    &&& forall|n: DepNode| #[trigger] walk.roots.contains(n) ==> seen.contains(n)
}

/// Whether the nodes of `queue` stand in the order of the number of steps
/// in which they are reached, none more than one step beyond the node at
/// `head`, while every node that is reached in fewer steps than the node
/// at `head` stands before it, and every node that is reached in no more
/// steps is in `seen`.
pub open spec fn in_order(walk: Walk, queue: Seq<DepNode>, head: int, seen: Set<DepNode>) -> bool {
    &&& forall|i: int, j: int|
        0 <= i <= j < queue.len() ==> walk.no_deeper(#[trigger] queue[i], #[trigger] queue[j])
    &&& 0 <= head < queue.len() ==> {
        &&& forall|j: int| 0 <= j < queue.len()
            ==> walk.one_deeper(queue[head], #[trigger] queue[j])
        &&& forall|m: DepNode, t: nat| #[trigger]
            walk.within(t, m) && !walk.within(t, queue[head]) ==> stands_before(queue, head, m)
        &&& forall|m: DepNode, t: nat| #[trigger]
            walk.within(t, m) && (t == 0 || !walk.within((t - 1) as nat, queue[head]))
                ==> seen.contains(m)
    }
}

/// A queue of the roots is in order.
pub proof fn lemma_roots_in_order(walk: Walk, queue: Seq<DepNode>, seen: Set<DepNode>)
    requires
        queued(walk, queue, seen),
        forall|n: DepNode| queue.contains(n) ==> walk.roots.contains(n),
    ensures
        in_order(walk, queue, 0, seen),
{
    assert forall|i: int, k: nat| 0 <= i < queue.len() implies #[trigger] walk.within(
        k,
        queue[i],
    ) by {
        assert(queue.contains(queue[i]));
        lemma_reach_later(walk, 0, k, queue[i]);
    }
    assert forall|i: int, j: int| 0 <= i <= j < queue.len() implies walk.no_deeper(
        #[trigger] queue[i],
        #[trigger] queue[j],
    ) by {
        assert forall|k: nat| #[trigger] walk.within(k, queue[j]) implies walk.within(
            k,
            queue[i],
        ) by {}
    }
    if queue.len() > 0 {
        assert forall|j: int| 0 <= j < queue.len() implies walk.one_deeper(
            queue[0],
            #[trigger] queue[j],
        ) by {
            assert forall|k: nat| #[trigger] walk.within(k, queue[0]) implies walk.within(
                k + 1,
                queue[j],
            ) by {}
        }
        assert forall|m: DepNode, t: nat| #[trigger]
            walk.within(t, m) && !walk.within(t, queue[0]) implies stands_before(queue, 0, m) by {}
        assert forall|m: DepNode, t: nat| #[trigger]
            walk.within(t, m) && (t == 0 || !walk.within((t - 1) as nat, queue[0]))
                implies seen.contains(m) by {
            if t > 0 {
                assert(walk.within((t - 1) as nat, queue[0]));
            }
        }
    }
}

/// A successor of the node at `head` that is new is reached in one step
/// more than that node, and the queue with it at its end is in order.
pub proof fn lemma_child_in_order(
    walk: Walk,
    queue: Seq<DepNode>,
    head: int,
    seen: Set<DepNode>,
    c: DepNode,
)
    requires
        0 <= head < queue.len(),
        queued(walk, queue, seen),
        in_order(walk, queue, head, seen),
        expanded(walk, queue, head, seen),
        walk.edges.contains((queue[head], c)),
        !walk.exclude.contains(c),
        !seen.contains(c),
    ensures
        walk.steps_back(queue[head], c),
        in_order(walk, queue.push(c), head, seen.insert(c)),
{
    let u = queue[head];
    let longer = queue.push(c);
    assert forall|k: nat| #[trigger] walk.within(k, c) implies k >= 1 && walk.within(
        (k - 1) as nat,
        u,
    ) by {
        let (j, m) = lemma_last_step(walk, k, c);
        if !walk.within(j, u) {
            assert(stands_before(queue, head, m));
            let at = choose|at: int| 0 <= at < head && at < queue.len()
                && #[trigger] queue[at] == m;
            assert(walk.edges.contains((queue[at], c)));
            assert(false);
        }
        lemma_reach_later(walk, j, (k - 1) as nat, u);
    }
    assert forall|i: int, j: int| 0 <= i <= j < longer.len() implies walk.no_deeper(
        #[trigger] longer[i],
        #[trigger] longer[j],
    ) by {
        if j < queue.len() {
            assert(walk.no_deeper(queue[i], queue[j]));
        } else if i < queue.len() {
            assert(walk.one_deeper(u, queue[i]));
            assert forall|k: nat| #[trigger] walk.within(k, c) implies walk.within(k, queue[i]) by {
                assert(walk.within((k - 1) as nat, u));
            }
        }
    }
    assert forall|j: int| 0 <= j < longer.len() implies walk.one_deeper(
        longer[head],
        #[trigger] longer[j],
    ) by {
        if j < queue.len() {
            assert(walk.one_deeper(u, queue[j]));
        } else {
            assert forall|k: nat| #[trigger] walk.within(k, u) implies walk.within(k + 1, c) by {
                assert(reach_in(walk.edges, walk.roots, walk.exclude, k, u));
            }
        }
    }
    assert forall|m: DepNode, t: nat| #[trigger]
        walk.within(t, m) && !walk.within(t, longer[head]) implies stands_before(
        longer,
        head,
        m,
    ) by {
        assert(stands_before(queue, head, m));
        let at = choose|at: int| 0 <= at < head && at < queue.len() && #[trigger] queue[at] == m;
        assert(longer[at] == m);
    }
}

/// Once every successor of the node at `head` is in `seen`, the queue is
/// in order for the next node.
pub proof fn lemma_next_in_order(walk: Walk, queue: Seq<DepNode>, head: int, seen: Set<DepNode>)
    requires
        0 <= head < queue.len(),
        queued(walk, queue, seen),
        in_order(walk, queue, head, seen),
        expanded(walk, queue, head + 1, seen),
    ensures
        in_order(walk, queue, head + 1, seen),
{
    let u = queue[head];
    if head + 1 < queue.len() {
        let v = queue[head + 1];
        assert(walk.no_deeper(u, v));
        assert(walk.one_deeper(u, v));
        assert forall|j: int| 0 <= j < queue.len()
            implies walk.one_deeper(v, #[trigger] queue[j]) by {
            assert(walk.one_deeper(u, queue[j]));
        }
        assert forall|m: DepNode, t: nat| #[trigger]
            walk.within(t, m) && !walk.within(t, v) implies stands_before(queue, head + 1, m) by {
            if !walk.within(t, u) {
                assert(stands_before(queue, head, m));
                let at = choose|at: int|
                    0 <= at < head && at < queue.len() && #[trigger] queue[at] == m;
                assert(queue[at] == m);
            } else {
                if t >= 1 && walk.within((t - 1) as nat, u) {
                    assert(walk.within(((t - 1) as nat + 1) as nat, v));
                }
                assert(seen.contains(m));
                assert(queue.contains(m));
                let at = choose|at: int| 0 <= at < queue.len() && queue[at] == m;
                if at > head {
                    assert(walk.no_deeper(queue[head + 1], queue[at]));
                }
                assert(queue[at] == m);
            }
        }
        assert forall|m: DepNode, t: nat| #[trigger]
            walk.within(t, m) && (t == 0 || !walk.within((t - 1) as nat, v)) implies seen.contains(
            m,
        ) by {
            if t > 0 && !walk.roots.contains(m) {
                if walk.within((t - 1) as nat, u) {
                    let (j, w) = lemma_last_step(walk, t, m);
                    lemma_reach_later(walk, j, (t - 1) as nat, w);
                    assert(stands_before(queue, head + 1, w));
                    let at = choose|at: int|
                        0 <= at < head + 1 && at < queue.len() && #[trigger] queue[at] == w;
                    assert(walk.edges.contains((queue[at], m)));
                }
            }
        }
    }
}

/// What a traversal found: the nodes it reached and, for each node that it
/// came upon along an edge, the node whose edge it was.
pub struct ReachabilityGraph {
    pub reachable: NodeSet,
    pub parents: NodeMap<DepNode>,
}

/// Whether `parents` records, for exactly the reached nodes that are no
/// roots, a reached node with an edge to them that is reached in one step
/// less: the step before them on a shortest way from the roots.
pub open spec fn parents_explain(
    walk: Walk,
    reachable: Set<DepNode>,
    parents: Map<DepNode, DepNode>,
) -> bool {
    &&& forall|n: DepNode| #[trigger]
        parents.dom().contains(n) <==> reachable.contains(n) && !walk.roots.contains(n)
    &&& forall|n: DepNode| #[trigger]
        parents.dom().contains(n) ==> {
            &&& reachable.contains(parents[n])
            &&& walk.edges.contains((parents[n], n))
            &&& walk.steps_back(parents[n], n)
        }
}

/// The members of `roots` that are not in `exclude`, in index order,
/// functions first.
fn collect_roots(roots: &NodeSet, exclude: &NodeSet) -> (queue: Vec<DepNode>)
    ensures
        queue@.no_duplicates(),
        forall|n: DepNode| queue@.contains(n) <==> roots@.difference(exclude@).contains(n),
{
    let ghost starts = roots@.difference(exclude@);
    let mut queue: Vec<DepNode> = Vec::new();
    let nf = roots.func_count();
    let nd = roots.data_count();
    let mut i: usize = 0;
    while i < nf
        invariant
            i <= nf,
            nf == roots.func_bound(),
            queue@.no_duplicates(),
            starts == roots@.difference(exclude@),
            forall|n: DepNode| #[trigger]
                starts.contains(n) <==> roots@.contains(n) && !exclude@.contains(n),
            forall|n: DepNode| #[trigger]
                queue@.contains(n) <==> starts.contains(n) && NodeSet::in_bounds(n, i as nat, 0),
        decreases nf - i,
    {
        let node = DepNode::Function(i);
        assert(starts.contains(node) == (roots@.contains(node) && !exclude@.contains(node)));
        if roots.contains(node) && !exclude.contains(node) {
            proof {
                lemma_push_no_duplicates(queue@, node);
                assert forall|n: DepNode|
                    queue@.push(node).contains(n) <==> starts.contains(n) && NodeSet::in_bounds(
                        n,
                        (i + 1) as nat,
                        0,
                    ) by {
                    lemma_push_contains(queue@, node, n);
                }
            }
            queue.push(node);
        }
        assert(forall|n: DepNode| #[trigger]
            queue@.contains(n) <==> starts.contains(n) && NodeSet::in_bounds(
                n,
                (i + 1) as nat,
                0,
            ));
        i += 1;
    }
    proof {
        roots.lemma_members_spanned();
    }
    let mut k: usize = 0;
    while k < nd
        invariant
            k <= nd,
            nf == roots.func_bound(),
            nd == roots.data_bound(),
            queue@.no_duplicates(),
            starts == roots@.difference(exclude@),
            forall|n: DepNode| #[trigger]
                starts.contains(n) <==> roots@.contains(n) && !exclude@.contains(n),
            forall|n: DepNode| #[trigger] roots@.contains(n) ==> roots.spans(n),
            forall|n: DepNode| #[trigger]
                queue@.contains(n) <==> starts.contains(n) && NodeSet::in_bounds(
                    n,
                    nf as nat,
                    k as nat,
                ),
        decreases nd - k,
    {
        let node = DepNode::DataSymbol(k);
        assert(starts.contains(node) == (roots@.contains(node) && !exclude@.contains(node)));
        if roots.contains(node) && !exclude.contains(node) {
            proof {
                lemma_push_no_duplicates(queue@, node);
                assert forall|n: DepNode|
                    queue@.push(node).contains(n) <==> starts.contains(n) && NodeSet::in_bounds(
                        n,
                        nf as nat,
                        (k + 1) as nat,
                    ) by {
                    lemma_push_contains(queue@, node, n);
                }
            }
            queue.push(node);
        }
        assert(forall|n: DepNode| #[trigger]
            queue@.contains(n) <==> starts.contains(n) && NodeSet::in_bounds(
                n,
                nf as nat,
                (k + 1) as nat,
            ));
        k += 1;
    }
    queue
}

/// Walks the graph breadth first from `roots`, never stepping onto a node
/// of `exclude`, and returns the nodes reached together with the node from
/// which each was first found: the step before it on a shortest way from
/// the roots. A root that is excluded is not reached; the other roots are
/// reached and have no parent. Nothing that is reached is excluded.
pub fn find_reachable_deps(deps: &DepGraph, roots: &NodeSet, exclude: &NodeSet) -> (r:
    ReachabilityGraph)
    requires
        deps.wf(),
        roots.func_bound() == deps.func_bound(),
        roots.data_bound() == deps.data_bound(),
    ensures
        r.reachable@ == reachable_set(deps@, roots@.difference(exclude@), exclude@),
        r.reachable@.disjoint(exclude@),
        r.reachable.func_bound() == deps.func_bound(),
        r.reachable.data_bound() == deps.data_bound(),
        r.parents.func_bound() == deps.func_bound(),
        r.parents.data_bound() == deps.data_bound(),
        parents_explain(
            Walk { edges: deps@, roots: roots@.difference(exclude@), exclude: exclude@ },
            r.reachable@,
            r.parents@,
        ),
{
    let nf = deps.func_count();
    let nd = deps.data_count();
    let ghost starts = roots@.difference(exclude@);
    let mut queue = collect_roots(roots, exclude);
    let mut seen = NodeSet::new(nf, nd);
    let mut parents: NodeMap<DepNode> = NodeMap::new(nf, nd);
    let ghost total: nat = (nf + nd) as nat;
    let ghost walk = Walk { edges: deps@, roots: starts, exclude: exclude@ };
    proof {
        roots.lemma_members_spanned();
        deps.lemma_edges();
    }
    let mut i: usize = 0;
    while i < queue.len()
        invariant
            i <= queue.len(),
            queue@.no_duplicates(),
            seen.func_bound() == roots.func_bound(),
            seen.data_bound() == roots.data_bound(),
            starts == roots@.difference(exclude@),
            forall|n: DepNode| #[trigger]
                starts.contains(n) <==> roots@.contains(n) && !exclude@.contains(n),
            forall|n: DepNode| #[trigger] roots@.contains(n) ==> roots.spans(n),
            forall|n: DepNode| queue@.contains(n) <==> starts.contains(n),
            forall|n: DepNode| #[trigger] seen@.contains(n) <==> queue@.take(i as int).contains(n),
            seen.absent() + i == total,
        decreases queue.len() - i,
    {
        let node = queue[i];
        proof {
            assert(queue@.contains(node));
            assert(starts.contains(node));
            assert(roots@.contains(node));
            if seen@.contains(node) {
                let j = choose|j: int| 0 <= j < i && queue@.take(i as int)[j] == node;
                assert(queue@[j] == node);
            }
            assert(queue@.take(i + 1) =~= queue@.take(i as int).push(node));
            assert forall|n: DepNode| #[trigger]
                seen@.insert(node).contains(n) <==> queue@.take(i + 1).contains(n) by {
                lemma_push_contains(queue@.take(i as int), node, n);
            }
        }
        seen.insert(node);
        i += 1;
    }
    proof {
        assert(queue@.take(queue@.len() as int) =~= queue@);
        assert forall|n: DepNode| #[trigger] seen@.contains(n) implies reaches(
            deps@,
            starts,
            exclude@,
            n,
        ) by {
            lemma_reaches_root(deps@, starts, exclude@, n);
        }
        lemma_roots_in_order(walk, queue@, seen@);
    }
    let mut head: usize = 0;
    while head < queue.len()
        invariant
            deps.wf(),
            head <= queue.len(),
            seen.func_bound() == deps.func_bound(),
            seen.data_bound() == deps.data_bound(),
            parents.func_bound() == deps.func_bound(),
            parents.data_bound() == deps.data_bound(),
            seen.absent() + queue.len() == total,
            forall|a: DepNode, b: DepNode| #[trigger]
                deps@.contains((a, b)) <==> deps.successors(a).contains(b),
            forall|a: DepNode, b: DepNode| #[trigger]
                deps@.contains((a, b)) ==> deps.spans(a) && deps.spans(b),
            forall|n: DepNode| #[trigger] seen@.contains(n) <==> queue@.contains(n),
            forall|n: DepNode| #[trigger] starts.contains(n) ==> seen@.contains(n),
            forall|n: DepNode| #[trigger]
                seen@.contains(n) ==> reaches(deps@, starts, exclude@, n),
            starts == roots@.difference(exclude@),
            forall|n: DepNode| #[trigger]
                starts.contains(n) <==> roots@.contains(n) && !exclude@.contains(n),
            walk == (Walk { edges: deps@, roots: starts, exclude: exclude@ }),
            expanded(walk, queue@, head as int, seen@),
            in_order(walk, queue@, head as int, seen@),
            parents_explain(walk, seen@, parents@),
        decreases total - head,
    {
        let node = queue[head];
        assert(queue@.contains(node));
        match deps.get(node) {
            Some(children) => {
                let mut ci: usize = 0;
                while ci < children.len()
                    invariant
                        deps.wf(),
                        ci <= children.len(),
                        head < queue.len(),
                        queue@[head as int] == node,
                        children@ == deps.successors(node),
                        seen.func_bound() == deps.func_bound(),
                        seen.data_bound() == deps.data_bound(),
                        parents.func_bound() == deps.func_bound(),
                        parents.data_bound() == deps.data_bound(),
                        seen.absent() + queue.len() == total,
                        forall|a: DepNode, b: DepNode| #[trigger]
                            deps@.contains((a, b)) <==> deps.successors(a).contains(b),
                        forall|a: DepNode, b: DepNode| #[trigger]
                            deps@.contains((a, b)) ==> deps.spans(a) && deps.spans(b),
                        forall|n: DepNode| #[trigger] seen@.contains(n) <==> queue@.contains(n),
                        forall|n: DepNode| #[trigger] starts.contains(n) ==> seen@.contains(n),
                        forall|n: DepNode| #[trigger]
                            seen@.contains(n) ==> reaches(deps@, starts, exclude@, n),
                        starts == roots@.difference(exclude@),
            forall|n: DepNode| #[trigger]
                starts.contains(n) <==> roots@.contains(n) && !exclude@.contains(n),
            walk == (Walk { edges: deps@, roots: starts, exclude: exclude@ }),
                        expanded(walk, queue@, head as int, seen@),
                        in_order(walk, queue@, head as int, seen@),
                        forall|j: int|
                            0 <= j < ci && !exclude@.contains(#[trigger] children@[j])
                                ==> seen@.contains(children@[j]),
                        parents_explain(walk, seen@, parents@),
                    decreases children.len() - ci,
                {
                    let child = children[ci];
                    assert(deps.successors(node).contains(child));
                    assert(deps@.contains((node, child)));
                    if !seen.contains(child) && !exclude.contains(child) {
                        proof {
                            assert(queue@[head as int] == node);
                            assert(seen@.contains(node));
                            assert(reaches(deps@, starts, exclude@, node));
                            lemma_reaches_step(deps@, starts, exclude@, node, child);
                            lemma_child_in_order(walk, queue@, head as int, seen@, child);
                            assert forall|n: DepNode| #[trigger]
                                seen@.insert(child).contains(n) <==> queue@.push(child).contains(
                                    n,
                                ) by {
                                lemma_push_contains(queue@, child, n);
                            }
                        }
                        seen.insert(child);
                        parents.insert(child, node);
                        queue.push(child);
                    }
                    ci += 1;
                }
                proof {
                    assert forall|c: DepNode| #[trigger]
                        deps@.contains((queue@[head as int], c)) && !exclude@.contains(
                            c,
                        ) implies seen@.contains(c) by {
                        let j = choose|j: int| 0 <= j < children@.len() && children@[j] == c;
                        assert(!exclude@.contains(children@[j]));
                    }
                }
            },
            None => {},
        }
        proof {
            assert(expanded(walk, queue@, head + 1, seen@));
            lemma_next_in_order(walk, queue@, head as int, seen@);
        }
        head += 1;
    }
    proof {
        let closed = seen@;
        assert forall|a: DepNode, b: DepNode|
            closed.contains(a) && #[trigger] deps@.contains((a, b)) && !exclude@.contains(
                b,
            ) implies closed.contains(b) by {
            let j = choose|j: int| 0 <= j < queue@.len() && queue@[j] == a;
            assert(walk.edges.contains((queue@[j], b)));
        }
        assert forall|n: DepNode| reaches(deps@, starts, exclude@, n) implies closed.contains(
            n,
        ) by {
            let k = choose|k: nat| reach_in(deps@, starts, exclude@, k, n);
            lemma_closed_set_holds_reached(deps@, starts, exclude@, closed, k, n);
        }
        assert(seen@ =~= reachable_set(deps@, starts, exclude@));
        assert forall|n: DepNode| seen@.contains(n) implies !exclude@.contains(n) by {
            let k = choose|k: nat| reach_in(deps@, starts, exclude@, k, n);
            lemma_reached_not_excluded(deps@, starts, exclude@, k, n);
        }
    }
    ReachabilityGraph { reachable: seen, parents }
}

} // verus!
