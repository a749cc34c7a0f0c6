//! Listings of what an output module holds, for diagnostics.

use crate::layout::OutputModuleInfo;
use crate::nodes::{DepNode, InputFuncId, NodeMap, NodeSet};
use crate::reach::{reach_in, reaches, ReachabilityGraph, Walk};
use crate::read::{name_text, InputModule};
use crate::seqs::{lemma_selects_next, selects};
use vstd::prelude::*;
use vstd::set_lib::{lemma_int_range, lemma_len_subset, set_int_range};

verus! {

/// A function of a listing: its index, its name where known, the size of
/// its body, and the nodes from which it was found, the nearest first.
#[derive(Debug, Clone, PartialEq, Eq)]
pub struct ListedFunction {
    pub func: InputFuncId,
    pub name: Option<String>,
    pub size: usize,
    pub chain: Vec<DepNode>,
}

/// The listing of a set of nodes: its functions in ascending order, and
/// the sum of their sizes.
#[derive(Debug, Clone, PartialEq, Eq)]
pub struct DepListing {
    pub module_name: String,
    pub functions: Vec<ListedFunction>,
    pub total_size: usize,
}

/// The size of the body of function `f`: none for an imported function or
/// for a function that is not there.
pub open spec fn func_size(module: &InputModule, f: InputFuncId) -> nat {
    let imported = module.imported_func_total();
    if imported <= f < imported + module.defined_funcs@.len() {
        module.defined_funcs@[f - imported].size()
    } else {
        0nat
    }
}

/// The nodes from which `n` was found, the nearest first: its parent, the
/// parent of that, and so on, `limit` of them at most.
pub open spec fn parent_chain(parents: Map<DepNode, DepNode>, n: DepNode, limit: nat) -> Seq<
    DepNode,
>
    decreases limit,
{
    if limit == 0 || !parents.dom().contains(n) {
        Seq::empty()
    } else {
        seq![parents[n]] + parent_chain(parents, parents[n], (limit - 1) as nat)
    }
}

/// The sum of the sizes of the first `upto` functions of a listing.
pub open spec fn sizes_sum(functions: Seq<ListedFunction>, upto: int) -> nat
    decreases upto,
{
    if upto <= 0 || upto > functions.len() {
        0
    } else {
        sizes_sum(functions, upto - 1) + functions[upto - 1].size as nat
    }
}

/// The name of function `f`, where the module gives one.
pub open spec fn func_name(module: &InputModule, f: InputFuncId) -> Option<Seq<char>> {
    if f < module.function_names@.len() {
        name_text(module.function_names@[f as int])
    } else {
        None
    }
}

/// The number of nodes of a universe, or the largest number where there
/// are more.
pub open spec fn chain_limit(func_bound: nat, data_bound: nat) -> nat {
    if func_bound + data_bound <= usize::MAX {
        func_bound + data_bound
    } else {
        usize::MAX as nat
    }
}

/// Whether `listing` lists the functions of `reachable`: each function
/// once, in ascending order, with its name, the size of its body and the
/// chain of its parents, and the sum of the sizes, or the largest number
/// where the sum is beyond it.
pub open spec fn lists(
    module: &InputModule,
    reachable: &NodeSet,
    parents: &NodeMap<DepNode>,
    listing: DepListing,
) -> bool {
    let functions = listing.functions@;
    &&& selects(
        Seq::new(functions.len(), |k: int| functions[k].func as int),
        reachable.func_bound() as int,
        |f: int| reachable@.contains(DepNode::Function(f as usize)),
    )
    &&& forall|k: int|
        0 <= k < functions.len() ==> {
            &&& name_text((#[trigger] functions[k]).name) == func_name(module, functions[k].func)
            &&& functions[k].size == func_size(module, functions[k].func)
            &&& functions[k].chain@ == parent_chain(
                parents@,
                DepNode::Function(functions[k].func),
                chain_limit(parents.func_bound(), parents.data_bound()),
            )
        }
    &&& listing.total_size == if sizes_sum(functions, functions.len() as int) <= usize::MAX {
        sizes_sum(functions, functions.len() as int)
    } else {
        usize::MAX as nat
    }
}

/// The nodes from which `n` was found, the nearest first, `limit` of them
/// at most.
fn chain_of(parents: &NodeMap<DepNode>, n: DepNode, limit: usize) -> (r: Vec<DepNode>)
    ensures
        r@ == parent_chain(parents@, n, limit as nat),
{
    let mut chain: Vec<DepNode> = Vec::new();
    let mut node = n;
    let mut left = limit;
    loop
        invariant
            chain@ + parent_chain(parents@, node, left as nat) == parent_chain(
                parents@,
                n,
                limit as nat,
            ),
        decreases left,
    {
        if left == 0 {
            assert(parent_chain(parents@, node, 0) =~= Seq::<DepNode>::empty());
            assert(chain@ + Seq::<DepNode>::empty() =~= chain@);
            return chain;
        }
        match parents.get(node) {
            Some(parent) => {
                proof {
                    let rest = parent_chain(parents@, parent, (left - 1) as nat);
                    assert(parent_chain(parents@, node, left as nat) == seq![parent] + rest);
                    assert(chain@.push(parent) + rest =~= chain@ + (seq![parent] + rest));
                }
                chain.push(parent);
                node = parent;
                left -= 1;
            },
            None => {
                assert(parent_chain(parents@, node, left as nat) =~= Seq::<DepNode>::empty());
                assert(chain@ + Seq::<DepNode>::empty() =~= chain@);
                return chain;
            },
        }
    }
}

/// The size of the body of function `f`.
fn size_of(module: &InputModule, imported: usize, f: InputFuncId) -> (r: usize)
    requires
        imported == module.imported_func_total(),
    ensures
        r == func_size(module, f),
{
    if f < imported {
        return 0;
    }
    let defined = f - imported;
    if defined < module.defined_funcs.len() {
        module.defined_funcs[defined].len()
    } else {
        0
    }
}

/// The name of function `f`, where the module gives one.
fn name_of(module: &InputModule, f: InputFuncId) -> (r: Option<String>)
    ensures
        name_text(r) == func_name(module, f),
{
    if f < module.function_names.len() {
        match &module.function_names[f] {
            Some(name) => Some(name.clone()),
            None => None,
        }
    } else {
        None
    }
}

/// Lists the functions of `reachable` under the heading `module_name`.
pub fn print_deps(
    module_name: &str,
    module: &InputModule,
    reachable: &NodeSet,
    parents: &NodeMap<DepNode>,
) -> (r: DepListing)
    ensures
        r.module_name@ == module_name@,
        lists(module, reachable, parents, r),
{
    let imported = module.imported_func_count();
    let nf = reachable.func_count();
    let limit = match parents.func_count().checked_add(parents.data_count()) {
        Some(limit) => limit,
        None => usize::MAX,
    };
    let ghost keep = |f: int| reachable@.contains(DepNode::Function(f as usize));
    let mut functions: Vec<ListedFunction> = Vec::new();
    let mut total_size: usize = 0;
    let mut f: usize = 0;
    while f < nf
        invariant
            f <= nf,
            nf == reachable.func_bound(),
            imported == module.imported_func_total(),
            limit == chain_limit(parents.func_bound(), parents.data_bound()),
            keep == |f: int| reachable@.contains(DepNode::Function(f as usize)),
            selects(
                Seq::new(functions@.len(), |k: int| functions@[k].func as int),
                f as int,
                keep,
            ),
            forall|k: int|
                0 <= k < functions@.len() ==> {
                    &&& name_text((#[trigger] functions@[k]).name) == func_name(
                        module,
                        functions@[k].func,
                    )
                    &&& functions@[k].size == func_size(module, functions@[k].func)
                    &&& functions@[k].chain@ == parent_chain(
                        parents@,
                        DepNode::Function(functions@[k].func),
                        limit as nat,
                    )
                },
            total_size == if sizes_sum(functions@, functions@.len() as int) <= usize::MAX {
                sizes_sum(functions@, functions@.len() as int)
            } else {
                usize::MAX as nat
            },
        decreases nf - f,
    {
        let ghost ids = Seq::new(functions@.len(), |k: int| functions@[k].func as int);
        let ghost before = functions@;
        proof {
            lemma_selects_next(ids, f as int, keep);
        }
        let node = DepNode::Function(f);
        if reachable.contains(node) {
            let size = size_of(module, imported, f);
            let entry = ListedFunction {
                func: f,
                name: name_of(module, f),
                size,
                chain: chain_of(parents, node, limit),
            };
            functions.push(entry);
            total_size = match total_size.checked_add(size) {
                Some(sum) => sum,
                None => usize::MAX,
            };
            proof {
                assert(Seq::new(functions@.len(), |k: int| functions@[k].func as int) =~= ids.push(
                    f as int,
                ));
                lemma_sizes_sum_prefix(before, functions@, before.len() as int);
            }
        }
        f += 1;
    }
    DepListing { module_name: module_name.to_owned(), functions, total_size }
}

/// The sum of the sizes of the first functions of a listing is that of
/// the same functions in a longer listing.
pub proof fn lemma_sizes_sum_prefix(
    short: Seq<ListedFunction>,
    long: Seq<ListedFunction>,
    upto: int,
)
    requires
        0 <= upto <= short.len() <= long.len(),
        forall|k: int| 0 <= k < short.len() ==> short[k] == long[k],
    ensures
        sizes_sum(short, upto) == sizes_sum(long, upto),
    decreases upto,
{
    if upto > 0 {
        lemma_sizes_sum_prefix(short, long, upto - 1);
    }
}

impl OutputModuleInfo {
    /// Lists the functions of this output module under the heading
    /// `module_name`.
    pub fn print(&self, module_name: &str, module: &InputModule) -> (r: DepListing)
        ensures
            r.module_name@ == module_name@,
            lists(module, &self.included_symbols, &self.parents, r),
    {
        print_deps(module_name, module, &self.included_symbols, &self.parents)
    }
}

impl ReachabilityGraph {
    /// Lists the functions that the traversal reached under the heading
    /// `module_name`.
    pub fn print(&self, module_name: &str, module: &InputModule) -> (r: DepListing)
        ensures
            r.module_name@ == module_name@,
            lists(module, &self.reachable, &self.parents, r),
    {
        print_deps(module_name, module, &self.reachable, &self.parents)
    }
}

/// The node `steps` parents above `n`.
pub open spec fn ancestor(parents: Map<DepNode, DepNode>, n: DepNode, steps: nat) -> DepNode
    decreases steps,
{
    if steps == 0 {
        n
    } else {
        parents[ancestor(parents, n, (steps - 1) as nat)]
    }
}

/// Whether `n` and the nodes less than `steps` parents above it all have
/// a parent.
pub open spec fn climbs(parents: Map<DepNode, DepNode>, n: DepNode, steps: nat) -> bool {
    forall|j: nat| j < steps ==> parents.dom().contains(#[trigger] ancestor(parents, n, j))
}

/// Whether each key of `parents` is a node of a universe of the given
/// size that the traversal `walk` reaches, with a parent that is reached
/// in fewer steps.
pub open spec fn leads_to_roots(
    walk: Walk,
    parents: Map<DepNode, DepNode>,
    func_bound: nat,
    data_bound: nat,
) -> bool {
    forall|m: DepNode| #[trigger]
        parents.dom().contains(m) ==> {
            &&& NodeSet::in_bounds(m, func_bound, data_bound)
            &&& reaches(walk.edges, walk.roots, walk.exclude, m)
            &&& walk.steps_back(parents[m], m)
        }
}

/// The place of a node among the nodes of a universe with `func_bound`
/// functions: functions first.
pub open spec fn node_place(n: DepNode, func_bound: nat) -> int {
    match n {
        DepNode::Function(i) => i as int,
        DepNode::DataSymbol(i) => func_bound + i,
    }
}

/// The ancestors of the parent of a node are the further ancestors of the
/// node.
pub proof fn lemma_ancestor_of_ancestor(
    parents: Map<DepNode, DepNode>,
    n: DepNode,
    first: nat,
    then: nat,
)
    ensures
        ancestor(parents, ancestor(parents, n, first), then) == ancestor(parents, n, first + then),
    decreases then,
{
    if then > 0 {
        lemma_ancestor_of_ancestor(parents, n, first, (then - 1) as nat);
    }
}

/// The chain of parents of `n` holds its ancestors in turn, as far as
/// they have parents and the limit allows.
pub proof fn lemma_chain_shape(parents: Map<DepNode, DepNode>, n: DepNode, limit: nat)
    ensures
        parent_chain(parents, n, limit).len() <= limit,
        climbs(parents, n, parent_chain(parents, n, limit).len()),
        forall|i: int|
            0 <= i < parent_chain(parents, n, limit).len() ==> #[trigger] parent_chain(
                parents,
                n,
                limit,
            )[i] == ancestor(parents, n, (i + 1) as nat),
        parent_chain(parents, n, limit).len() < limit ==> !parents.dom().contains(
            ancestor(parents, n, parent_chain(parents, n, limit).len()),
        ),
    decreases limit,
{
    let chain = parent_chain(parents, n, limit);
    if limit == 0 || !parents.dom().contains(n) {
        assert(ancestor(parents, n, 0) == n);
    } else {
        let p = parents[n];
        let rest = parent_chain(parents, p, (limit - 1) as nat);
        lemma_chain_shape(parents, p, (limit - 1) as nat);
        assert(chain == seq![p] + rest);
        assert(ancestor(parents, n, 1) == parents[ancestor(parents, n, 0)]);
        assert forall|j: nat| j < chain.len() implies parents.dom().contains(
            #[trigger] ancestor(parents, n, j),
        ) by {
            if j > 0 {
                lemma_ancestor_of_ancestor(parents, n, 1, (j - 1) as nat);
                assert(parents.dom().contains(ancestor(parents, p, (j - 1) as nat)));
            }
        }
        assert forall|i: int| 0 <= i < chain.len() implies #[trigger] chain[i] == ancestor(
            parents,
            n,
            (i + 1) as nat,
        ) by {
            lemma_ancestor_of_ancestor(parents, n, 1, i as nat);
            if i > 0 {
                assert(chain[i] == rest[i - 1]);
            }
        }
        lemma_ancestor_of_ancestor(parents, n, 1, rest.len());
    }
}

/// An ancestor `steps` parents above a node that is reached in `k` steps
/// is reached in `steps` steps less.
pub proof fn lemma_ancestor_nearer(
    walk: Walk,
    parents: Map<DepNode, DepNode>,
    n: DepNode,
    steps: nat,
    k: nat,
)
    requires
        forall|m: DepNode| #[trigger]
            parents.dom().contains(m) ==> walk.steps_back(parents[m], m),
        climbs(parents, n, steps),
        walk.within(k, n),
    ensures
        k >= steps,
        walk.within((k - steps) as nat, ancestor(parents, n, steps)),
    decreases steps,
{
    if steps > 0 {
        let before = (steps - 1) as nat;
        lemma_ancestor_nearer(walk, parents, n, before, k);
        let m = ancestor(parents, n, before);
        assert(parents.dom().contains(m));
        assert(walk.steps_back(parents[m], m));
        assert(walk.within((k - before) as nat, m));
    }
}

/// No reached node is its own ancestor.
pub proof fn lemma_no_way_round(
    walk: Walk,
    parents: Map<DepNode, DepNode>,
    n: DepNode,
    steps: nat,
    k: nat,
)
    requires
        forall|m: DepNode| #[trigger]
            parents.dom().contains(m) ==> walk.steps_back(parents[m], m),
        climbs(parents, n, steps),
        steps >= 1,
        walk.within(k, n),
    ensures
        ancestor(parents, n, steps) != n,
    decreases k,
{
    lemma_ancestor_nearer(walk, parents, n, steps, k);
    if ancestor(parents, n, steps) == n {
        lemma_no_way_round(walk, parents, n, steps, (k - steps) as nat);
    }
}

/// A node has no more ancestors with a parent, itself counted, than the
/// universe has nodes.
pub proof fn lemma_climb_bounded(
    walk: Walk,
    parents: Map<DepNode, DepNode>,
    func_bound: nat,
    data_bound: nat,
    n: DepNode,
    steps: nat,
)
    requires
        leads_to_roots(walk, parents, func_bound, data_bound),
        climbs(parents, n, steps),
    ensures
        steps <= func_bound + data_bound,
{
    let places = Seq::new(steps, |j: int| node_place(ancestor(parents, n, j as nat), func_bound));
    let all = set_int_range(0, (func_bound + data_bound) as int);
    assert forall|i: int, j: int| 0 <= i < j < steps implies places[i] != places[j] by {
        let a = ancestor(parents, n, i as nat);
        let b = ancestor(parents, n, j as nat);
        assert(parents.dom().contains(a) && parents.dom().contains(b));
        lemma_ancestor_of_ancestor(parents, n, i as nat, (j - i) as nat);
        assert forall|d: nat| d < (j - i) as nat implies parents.dom().contains(
            #[trigger] ancestor(parents, a, d),
        ) by {
            lemma_ancestor_of_ancestor(parents, n, i as nat, d);
            assert(parents.dom().contains(ancestor(parents, n, i as nat + d)));
        }
        assert(reaches(walk.edges, walk.roots, walk.exclude, a));
        let k = choose|k: nat| reach_in(walk.edges, walk.roots, walk.exclude, k, a);
        lemma_no_way_round(walk, parents, a, (j - i) as nat, k);
    }
    assert(places.no_duplicates());
    places.unique_seq_to_set();
    lemma_int_range(0, (func_bound + data_bound) as int);
    assert forall|p: int| places.to_set().contains(p) implies all.contains(p) by {
        let j = choose|j: int| 0 <= j < places.len() && places[j] == p;
        assert(parents.dom().contains(ancestor(parents, n, j as nat)));
    }
    lemma_len_subset(places.to_set(), all);
}

/// The node at which the chain of parents of `n` ends: the last of the
/// chain, or `n` itself where the chain is empty.
pub open spec fn chain_end(parents: Map<DepNode, DepNode>, n: DepNode, limit: nat) -> DepNode {
    let chain = parent_chain(parents, n, limit);
    if chain.len() == 0 {
        n
    } else {
        chain.last()
    }
}

/// Where the parents are those of a traversal, a limit of as many nodes
/// as the universe has cuts no chain: the chain ends at a node without a
/// parent, and is the chain that any larger limit gives.
pub proof fn lemma_chain_whole(
    walk: Walk,
    parents: Map<DepNode, DepNode>,
    func_bound: nat,
    data_bound: nat,
    n: DepNode,
    limit: nat,
    more: nat,
)
    requires
        leads_to_roots(walk, parents, func_bound, data_bound),
        func_bound + data_bound <= limit <= more,
    ensures
        !parents.dom().contains(chain_end(parents, n, limit)),
        parent_chain(parents, n, more) == parent_chain(parents, n, limit),
{
    let chain = parent_chain(parents, n, limit);
    let longer = parent_chain(parents, n, more);
    lemma_chain_shape(parents, n, limit);
    lemma_chain_shape(parents, n, more);
    lemma_climb_bounded(walk, parents, func_bound, data_bound, n, chain.len());
    lemma_climb_bounded(walk, parents, func_bound, data_bound, n, longer.len());
    let end = ancestor(parents, n, chain.len());
    let far = ancestor(parents, n, longer.len());
    if parents.dom().contains(end) {
        assert(climbs(parents, n, chain.len() + 1));
        lemma_climb_bounded(walk, parents, func_bound, data_bound, n, chain.len() + 1);
    }
    if parents.dom().contains(far) {
        assert(climbs(parents, n, longer.len() + 1));
        lemma_climb_bounded(walk, parents, func_bound, data_bound, n, longer.len() + 1);
    }
    if chain.len() < longer.len() {
        assert(parents.dom().contains(ancestor(parents, n, chain.len())));
    }
    if longer.len() < chain.len() {
        assert(parents.dom().contains(ancestor(parents, n, longer.len())));
    }
    assert(longer =~= chain);
    if chain.len() > 0 {
        assert(chain.last() == chain[chain.len() - 1]);
    }
}

} // verus!
