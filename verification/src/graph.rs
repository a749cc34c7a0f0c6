//! The dependency graph: which function or data symbol uses which.

use crate::nodes::{DepNode, NodeSet};
use vstd::prelude::*;

verus! {

/// A directed graph over the functions and data symbols of one module.
///
/// The successors of each node are kept in the order in which their edges
/// were first added; adding an edge twice changes nothing.
pub struct DepGraph {
    funcs: Vec<Vec<DepNode>>,
    data: Vec<Vec<DepNode>>,
}

impl View for DepGraph {
    type V = Set<(DepNode, DepNode)>;

    /// The set of edges.
    closed spec fn view(&self) -> Set<(DepNode, DepNode)> {
        Set::new(|e: (DepNode, DepNode)| self.successors(e.0).contains(e.1))
    }
}

impl DepGraph {
    /// The number of functions of the universe.
    pub closed spec fn func_bound(&self) -> nat {
        self.funcs@.len()
    }

    /// The number of data symbols of the universe.
    pub closed spec fn data_bound(&self) -> nat {
        self.data@.len()
    }

    /// Whether `n` is a node of this graph.
    pub open spec fn spans(&self, n: DepNode) -> bool {
        NodeSet::in_bounds(n, self.func_bound(), self.data_bound())
    }

    /// The successors of `n` in the order of their first edge.
    pub closed spec fn successors(&self, n: DepNode) -> Seq<DepNode> {
        match n {
            DepNode::Function(i) => if i < self.funcs@.len() {
                self.funcs@[i as int]@
            } else {
                Seq::empty()
            },
            DepNode::DataSymbol(i) => if i < self.data@.len() {
                self.data@[i as int]@
            } else {
                Seq::empty()
            },
        }
    }

    /// Both ends of every edge are nodes of the graph, and no successor is
    /// listed twice.
    pub closed spec fn wf(&self) -> bool {
        &&& forall|i: int, j: int|
            0 <= i < self.funcs@.len() && 0 <= j < self.funcs@[i]@.len() ==> self.spans(
                #[trigger] self.funcs@[i]@[j],
            )
        &&& forall|i: int, j: int|
            0 <= i < self.data@.len() && 0 <= j < self.data@[i]@.len() ==> self.spans(
                #[trigger] self.data@[i]@[j],
            )
        &&& forall|i: int| 0 <= i < self.funcs@.len()
            ==> (#[trigger] self.funcs@[i]@).no_duplicates()
        &&& forall|i: int| 0 <= i < self.data@.len() ==> (#[trigger] self.data@[i]@).no_duplicates()
    }

    /// The universe of the graph is no larger than can be counted.
    pub proof fn lemma_bounds(&self)
        ensures
            self.func_bound() <= usize::MAX,
            self.data_bound() <= usize::MAX,
    {
        assert(self.funcs.len() == self.funcs@.len());
        assert(self.data.len() == self.data@.len());
    }

    /// An edge is a successor entry, and its ends are nodes of the graph.
    pub proof fn lemma_edges(&self)
        requires
            self.wf(),
        ensures
            forall|a: DepNode, b: DepNode| #[trigger]
                self@.contains((a, b)) <==> self.successors(a).contains(b),
            forall|a: DepNode, b: DepNode| #[trigger]
                self@.contains((a, b)) ==> self.spans(a) && self.spans(b),
            forall|a: DepNode| (#[trigger] self.successors(a)).no_duplicates(),
    {
        assert forall|a: DepNode, b: DepNode| #[trigger] self@.contains((a, b)) implies self.spans(
            a,
        ) && self.spans(b) by {
            let s = self.successors(a);
            let j = choose|j: int| 0 <= j < s.len() && s[j] == b;
            match a {
                DepNode::Function(i) => {
                    assert(self.spans(self.funcs@[i as int]@[j]));
                },
                DepNode::DataSymbol(i) => {
                    assert(self.spans(self.data@[i as int]@[j]));
                },
            }
        }
    }

    /// The graph without edges over a universe of the given size.
    pub fn new(func_bound: usize, data_bound: usize) -> (g: DepGraph)
        ensures
            g.wf(),
            g@ == Set::<(DepNode, DepNode)>::empty(),
            g.func_bound() == func_bound,
            g.data_bound() == data_bound,
    {
        let mut funcs: Vec<Vec<DepNode>> = Vec::new();
        let mut i: usize = 0;
        while i < func_bound
            invariant
                i <= func_bound,
                funcs@.len() == i,
                forall|j: int| 0 <= j < i ==> (#[trigger] funcs@[j]@).len() == 0,
            decreases func_bound - i,
        {
            funcs.push(Vec::new());
            i += 1;
        }
        let mut data: Vec<Vec<DepNode>> = Vec::new();
        let mut k: usize = 0;
        while k < data_bound
            invariant
                k <= data_bound,
                data@.len() == k,
                forall|j: int| 0 <= j < k ==> (#[trigger] data@[j]@).len() == 0,
            decreases data_bound - k,
        {
            data.push(Vec::new());
            k += 1;
        }
        let g = DepGraph { funcs, data };
        assert(g@ =~= Set::<(DepNode, DepNode)>::empty());
        g
    }

    /// The number of functions of the universe.
    pub fn func_count(&self) -> (n: usize)
        ensures
            n == self.func_bound(),
    {
        self.funcs.len()
    }

    /// The number of data symbols of the universe.
    pub fn data_count(&self) -> (n: usize)
        ensures
            n == self.data_bound(),
    {
        self.data.len()
    }

    /// Whether `n` is a node of this graph.
    pub fn has_node(&self, n: DepNode) -> (r: bool)
        ensures
            r == self.spans(n),
    {
        match n {
            DepNode::Function(i) => i < self.funcs.len(),
            DepNode::DataSymbol(i) => i < self.data.len(),
        }
    }

    /// The successors of `n`; `None` for a node outside the graph.
    pub fn get(&self, n: DepNode) -> (r: Option<&Vec<DepNode>>)
        ensures
            r is Some <==> self.spans(n),
            r matches Some(list) ==> list@ == self.successors(n),
            r is None ==> self.successors(n) == Seq::<DepNode>::empty(),
    {
        match n {
            DepNode::Function(i) => if i < self.funcs.len() {
                Some(&self.funcs[i])
            } else {
                None
            },
            DepNode::DataSymbol(i) => if i < self.data.len() {
                Some(&self.data[i])
            } else {
                None
            },
        }
    }

    /// Whether there is an edge from `from` to `to`.
    pub fn has_edge(&self, from: DepNode, to: DepNode) -> (r: bool)
        ensures
            r == self@.contains((from, to)),
    {
        match self.get(from) {
            Some(list) => list_contains(list, to),
            None => false,
        }
    }

    /// Adds the edge from `from` to `to` and says whether both are nodes
    /// of the graph; if not, nothing is added. An edge that is there
    /// already is not added again.
    pub fn add_edge(&mut self, from: DepNode, to: DepNode) -> (r: bool)
        requires
            old(self).wf(),
        ensures
            r == (old(self).spans(from) && old(self).spans(to)),
            final(self).wf(),
            final(self).func_bound() == old(self).func_bound(),
            final(self).data_bound() == old(self).data_bound(),
            !r ==> final(self)@ == old(self)@ && forall|n: DepNode|
                final(self).successors(n) == old(self).successors(n),
            r ==> final(self)@ == old(self)@.insert((from, to)),
            r ==> forall|n: DepNode|
                n != from ==> final(self).successors(n) == old(self).successors(n),
            r ==> final(self).successors(from) == if old(self).successors(from).contains(to) {
                old(self).successors(from)
            } else {
                old(self).successors(from).push(to)
            },
    {
        if !self.has_node(from) || !self.has_node(to) {
            return false;
        }
        if self.has_edge(from, to) {
            assert(self@ =~= old(self)@.insert((from, to)));
            return true;
        }
        match from {
            DepNode::Function(i) => {
                self.funcs[i].push(to);
            },
            DepNode::DataSymbol(i) => {
                self.data[i].push(to);
            },
        }
        assert(self.successors(from) == old(self).successors(from).push(to));
        assert forall|n: DepNode| n != from implies self.successors(n) == old(self).successors(
            n,
        ) by {}
        assert forall|e: (DepNode, DepNode)| self@.contains(e) == old(self)@.insert(
            (from, to),
        ).contains(e) by {
            if e.0 == from {
                let s = old(self).successors(from);
                let t = s.push(to);
                if s.contains(e.1) {
                    let j = choose|j: int| 0 <= j < s.len() && s[j] == e.1;
                    assert(t[j] == e.1);
                }
                if e.1 == to {
                    assert(t[s.len() as int] == to);
                }
                if t.contains(e.1) {
                    let j = choose|j: int| 0 <= j < t.len() && t[j] == e.1;
                    if j < s.len() {
                        assert(s[j] == e.1);
                    }
                }
            } else {
                assert(self.successors(e.0) == old(self).successors(e.0));
            }
        }
        assert(self@ =~= old(self)@.insert((from, to)));
        true
    }
}

/// Whether `list` holds `n`.
pub fn list_contains(list: &Vec<DepNode>, n: DepNode) -> (r: bool)
    ensures
        r == list@.contains(n),
{
    let mut i: usize = 0;
    while i < list.len()
        invariant
            i <= list.len(),
            forall|j: int| 0 <= j < i ==> list@[j] != n,
        decreases list.len() - i,
    {
        if list[i] == n {
            return true;
        }
        i += 1;
    }
    false
}

} // verus!
