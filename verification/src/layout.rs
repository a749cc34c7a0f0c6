//! What the partition of the input into output modules is: stated over
//! sets, apart from how it is computed.

use crate::identifier::{ident_less, IdentifierView, SplitModuleIdentifier};
use crate::nodes::{DepNode, InputFuncId, NodeMap, NodeSet};
use crate::order::{ascending, name_less};
use crate::reach::{reachable_set, reaches, ReachabilityGraph, Walk};
use crate::seqs::{positions, selects};
use crate::split_point::{point_views, SplitPoint, SplitPointView};
use vstd::prelude::*;

verus! {

/// What goes into one output module.
pub struct OutputModuleInfo {
    /// The functions and data symbols that the module holds.
    pub included_symbols: NodeSet,
    /// For nodes that a traversal came upon along an edge, the node whose
    /// edge it was. For diagnostics only.
    pub parents: NodeMap<DepNode>,
    /// The functions that the module calls and does not hold, in ascending
    /// order.
    pub shared_imports: Vec<InputFuncId>,
    /// The split points of the module, for a split.
    pub split_points: Vec<SplitPoint>,
}

impl From<ReachabilityGraph> for OutputModuleInfo {
    /// The output module that holds what a traversal reached, with the
    /// parents that the traversal found, and with no imports and no split
    /// points yet.
    fn from(reachability: ReachabilityGraph) -> (r: OutputModuleInfo)
        ensures
            r.included_symbols == reachability.reachable,
            r.parents == reachability.parents,
            r.shared_imports@.len() == 0,
            r.split_points@.len() == 0,
    {
        OutputModuleInfo {
            included_symbols: reachability.reachable,
            parents: reachability.parents,
            shared_imports: Vec::new(),
            split_points: Vec::new(),
        }
    }
}

impl vstd::std_specs::convert::FromSpecImpl<ReachabilityGraph> for OutputModuleInfo {
    /// What `from` gives is stated with `from` itself.
    open spec fn obeys_from_spec() -> bool {
        false
    }

    open spec fn from_spec(v: ReachabilityGraph) -> Self {
        arbitrary()
    }
}

/// An output module with its identifier.
pub type Output = (SplitModuleIdentifier, OutputModuleInfo);

/// The partition of the input into output modules.
pub struct SplitProgramInfo {
    /// The output modules in their order: main module, chunks, splits.
    pub output_modules: Vec<Output>,
    /// The functions that the main module exports for the others, in
    /// ascending order.
    pub shared_funcs: Vec<InputFuncId>,
    /// For each node that an output module holds, the position of that
    /// output module.
    pub symbol_output_module: NodeMap<usize>,
}

impl SplitProgramInfo {
    /// The position of the output module `identifier`: the first with
    /// that identifier, if there is one.
    pub fn output_index(&self, identifier: &SplitModuleIdentifier) -> (r: Option<usize>)
        ensures
            match r {
                Some(i) => {
                    &&& i < self.output_modules@.len()
                    &&& self.output_modules@[i as int].0@ == identifier@
                    &&& forall|j: int| 0 <= j < i ==> (#[trigger] self.output_modules@[j]).0@
                        != identifier@
                },
                None => forall|j: int|
                    0 <= j < self.output_modules@.len() ==> (#[trigger] self.output_modules@[j]).0@
                        != identifier@,
            },
    {
        let mut i: usize = 0;
        while i < self.output_modules.len()
            invariant
                i <= self.output_modules@.len(),
                forall|j: int| 0 <= j < i ==> (#[trigger] self.output_modules@[j]).0@
                    != identifier@,
            decreases self.output_modules@.len() - i,
        {
            if self.output_modules[i].0.same(identifier) {
                return Some(i);
            }
            i += 1;
        }
        None
    }
}

/// What the partition is computed from: the edges of the dependency graph,
/// the size of its universe, the roots of the main module and the split
/// points.
pub struct SplitInput {
    pub edges: Set<(DepNode, DepNode)>,
    pub func_bound: nat,
    pub data_bound: nat,
    pub roots: Set<DepNode>,
    pub points: Seq<SplitPointView>,
}

/// The last of the first `upto` split points whose import is function `f`.
pub open spec fn last_importing(points: Seq<SplitPointView>, f: InputFuncId, upto: int) -> Option<
    int,
>
    decreases upto,
{
    if upto <= 0 {
        None
    } else if upto <= points.len() && points[upto - 1].import_func == f {
        Some(upto - 1)
    } else {
        last_importing(points, f, upto - 1)
    }
}

/// Whether a function of `included` has an edge to a function that stands
/// for `f`, while `included` does not hold `f` and `f` is not the imported
/// function of a split point.
pub open spec fn calls_outside(input: SplitInput, included: Set<DepNode>, f: InputFuncId) -> bool {
    &&& !input.is_import_func(f)
    &&& !included.contains(DepNode::Function(f))
    &&& exists|caller: InputFuncId, callee: InputFuncId|
        {
            &&& included.contains(DepNode::Function(caller))
            &&& #[trigger] input.edges.contains(
                (DepNode::Function(caller), DepNode::Function(callee)),
            )
            &&& input.rewritten(callee) == f
        }
}

/// Whether `f` is the imported function of one of the first `upto` split
/// points.
pub open spec fn imports_func(points: Seq<SplitPointView>, upto: int, f: InputFuncId) -> bool {
    exists|k: int| 0 <= k < upto && k < points.len() && (#[trigger] points[k]).import_func == f
}

/// Whether `f` is the exported function of one of the first `upto` split
/// points.
pub open spec fn exports_func(points: Seq<SplitPointView>, upto: int, f: InputFuncId) -> bool {
    exists|k: int| 0 <= k < upto && k < points.len() && (#[trigger] points[k]).export_func == f
}

/// Whether a split point names the split module `name`.
pub open spec fn in_module(name: Seq<char>) -> spec_fn(SplitPointView) -> bool {
    |p: SplitPointView| p.module_name == name
}

/// Whether `f` is the exported function of one of the first `upto` split
/// points that name the split module `name`.
pub open spec fn enters_module(
    points: Seq<SplitPointView>,
    upto: int,
    name: Seq<char>,
    f: InputFuncId,
) -> bool {
    exists|k: int|
        0 <= k < upto && k < points.len() && (#[trigger] points[k]).module_name == name
            && points[k].export_func == f
}

/// The imported functions of the first `upto` split points, as nodes.
pub open spec fn ignored_set(points: Seq<SplitPointView>, upto: int) -> Set<DepNode> {
    Set::new(
        |n: DepNode|
            match n {
                DepNode::Function(f) => imports_func(points, upto, f),
                DepNode::DataSymbol(_) => false,
            },
    )
}

impl SplitInput {
    /// Whether `f` is the imported function of a split point.
    pub open spec fn is_import_func(self, f: InputFuncId) -> bool {
        imports_func(self.points, self.points.len() as int, f)
    }

    /// Whether `f` is the exported function of a split point.
    pub open spec fn is_export_func(self, f: InputFuncId) -> bool {
        exports_func(self.points, self.points.len() as int, f)
    }

    /// The nodes that no output module holds: the imported functions of
    /// the split points.
    pub open spec fn ignored(self) -> Set<DepNode> {
        ignored_set(self.points, self.points.len() as int)
    }

    /// What the main module holds: what is reached from its roots, but for
    /// the imported functions of the split points.
    pub open spec fn main_set(self) -> Set<DepNode> {
        reachable_set(self.edges, self.roots, Set::empty()).difference(self.ignored())
    }

    /// Whether a split point names the split module `name`.
    pub open spec fn is_split_name(self, name: Seq<char>) -> bool {
        exists|k: int| 0 <= k < self.points.len() && (#[trigger] self.points[k]).module_name == name
    }

    /// Whether `f` is the exported function of a split point of the split
    /// module `name`.
    pub open spec fn is_entry_of(self, name: Seq<char>, f: InputFuncId) -> bool {
        enters_module(self.points, self.points.len() as int, name, f)
    }

    /// The roots of the split module `name`: the exported functions of its
    /// split points that the main module does not hold.
    pub open spec fn split_roots(self, name: Seq<char>) -> Set<DepNode> {
        Set::new(
            |n: DepNode|
                match n {
                    DepNode::Function(f) => self.is_entry_of(name, f)
                        && !self.main_set().contains(n),
                    DepNode::DataSymbol(_) => false,
                },
        )
    }

    /// What the split module `name` reaches outside the main module, but
    /// for the imported functions of the split points.
    pub open spec fn split_reach(self, name: Seq<char>) -> Set<DepNode> {
        reachable_set(self.edges, self.split_roots(name), self.main_set()).difference(
            self.ignored(),
        )
    }

    /// Whether the split modules that reach `n` are exactly those of
    /// `names`.
    pub open spec fn owned_by(self, n: DepNode, names: Seq<Seq<char>>) -> bool {
        forall|name: Seq<char>| #[trigger]
            self.is_split_name(name) ==> (self.split_reach(name).contains(n) <==> names.contains(
                name,
            ))
    }

    /// What the output module `ident` holds: the main module what it
    /// reaches, a split what it alone reaches outside the main module, a
    /// chunk what exactly its splits reach.
    pub open spec fn included(self, ident: IdentifierView) -> Set<DepNode> {
        match ident {
            IdentifierView::Main => self.main_set(),
            IdentifierView::Chunk(names) => Set::new(|n: DepNode| self.owned_by(n, names)),
            IdentifierView::Split(name) => Set::new(|n: DepNode| self.owned_by(n, seq![name])),
        }
    }

    /// The function that a call of `f` is a call of: for the imported
    /// function of a split point the exported function of the last such
    /// split point, else `f` itself.
    pub open spec fn rewritten(self, f: InputFuncId) -> InputFuncId {
        match last_importing(self.points, f, self.points.len() as int) {
            Some(k) => self.points[k].export_func,
            None => f,
        }
    }

    /// Whether the output module `ident` imports `f`: one of its functions
    /// has an edge to a function that stands for `f`, the module does not
    /// hold `f`, and `f` is not the imported function of a split point.
    pub open spec fn shared_import(self, ident: IdentifierView, f: InputFuncId) -> bool {
        calls_outside(self, self.included(ident), f)
    }

    /// The split points of the output module `ident`: for a split those
    /// that name it, in their order; for the others none.
    pub open spec fn points_of(self, ident: IdentifierView) -> Seq<SplitPointView> {
        match ident {
            IdentifierView::Split(name) => self.points.filter(in_module(name)),
            _ => Seq::empty(),
        }
    }

    /// The traversal that found what `ident` holds: for the main module
    /// from its roots, for a split from its roots outside the main
    /// module.
    pub open spec fn walk_of(self, ident: IdentifierView) -> Walk {
        match ident {
            IdentifierView::Main => Walk {
                edges: self.edges,
                roots: self.roots,
                exclude: Set::empty(),
            },
            IdentifierView::Chunk(_) => Walk {
                edges: self.edges,
                roots: Set::empty(),
                exclude: Set::empty(),
            },
            IdentifierView::Split(name) => Walk {
                edges: self.edges,
                roots: self.split_roots(name),
                exclude: self.main_set(),
            },
        }
    }

    /// Whether `ident` names an output module of the partition: the main
    /// module, a split that a split point names, or a chunk of two or more
    /// such splits, in ascending order, that holds something.
    pub open spec fn has_output(self, ident: IdentifierView) -> bool {
        match ident {
            IdentifierView::Main => true,
            IdentifierView::Chunk(names) => {
                &&& names.len() >= 2
                &&& ascending(name_less(), names)
                &&& forall|j: int| 0 <= j < names.len() ==> self.is_split_name(#[trigger] names[j])
                &&& exists|n: DepNode| self.included(ident).contains(n)
            },
            IdentifierView::Split(name) => self.is_split_name(name),
        }
    }
}

/// The numbers of a list of function indices.
pub open spec fn as_ints(v: Seq<usize>) -> Seq<int> {
    positions(v)
}

/// The identifiers of a list of output modules.
pub open spec fn idents(outs: Seq<Output>) -> Seq<IdentifierView> {
    Seq::new(outs.len(), |i: int| outs[i].0@)
}

/// Whether `parents` gives for each of its keys, which the traversal
/// `walk` reaches, a node with an edge to it, the step before it on a
/// shortest way of the traversal, and has a key for each node of
/// `included` that is no root.
pub open spec fn parents_lead_back(
    walk: Walk,
    included: Set<DepNode>,
    parents: Map<DepNode, DepNode>,
) -> bool {
    &&& forall|n: DepNode| #[trigger]
        parents.dom().contains(n) ==> {
            &&& reaches(walk.edges, walk.roots, walk.exclude, n)
            &&& walk.edges.contains((parents[n], n))
            &&& walk.steps_back(parents[n], n)
        }
    &&& forall|n: DepNode| #[trigger]
        included.contains(n) && !walk.roots.contains(n) ==> parents.dom().contains(n)
}

/// Whether `out` holds what the output module `ident` of the partition of
/// `input` holds, and has its split points and parents.
pub open spec fn is_output_but_imports(
    input: SplitInput,
    ident: IdentifierView,
    out: OutputModuleInfo,
) -> bool {
    &&& out.included_symbols@ == input.included(ident)
    &&& out.included_symbols.func_bound() == input.func_bound
    &&& out.included_symbols.data_bound() == input.data_bound
    &&& point_views(out.split_points@) == input.points_of(ident)
    &&& ident is Chunk ==> out.parents@ == Map::<DepNode, DepNode>::empty()
    &&& !(ident is Chunk) ==> parents_lead_back(
        input.walk_of(ident),
        out.included_symbols@,
        out.parents@,
    )
}

/// Whether `out` is the output module `ident` of the partition of `input`.
pub open spec fn is_output(
    input: SplitInput,
    ident: IdentifierView,
    out: OutputModuleInfo,
) -> bool {
    &&& is_output_but_imports(input, ident, out)
    &&& selects(
        as_ints(out.shared_imports@),
        input.func_bound as int,
        |f: int| input.shared_import(ident, f as usize),
    )
}

/// Whether some output module of `outs` imports `f`, or `f` is the exported
/// function of a split point: what the main module exports for the others.
pub open spec fn is_shared_func(
    input: SplitInput,
    ids: Seq<IdentifierView>,
    f: InputFuncId,
) -> bool {
    input.is_export_func(f) || exists|i: int|
        0 <= i < ids.len() && input.shared_import(#[trigger] ids[i], f)
}

/// Whether one of the first `upto` of `outs` holds `n`.
pub open spec fn held_before(outs: Seq<Output>, upto: int, n: DepNode) -> bool {
    exists|i: int|
        0 <= i < upto && i < outs.len() && (#[trigger] outs[i]).1.included_symbols@.contains(n)
}

/// Whether `outs` are the output modules of the partition of `input` by
/// their identifiers: the main module first, the others in their order,
/// none but those of the partition, a split for each split module, and
/// each node that a split reaches in one of them.
pub open spec fn covers(input: SplitInput, outs: Seq<Output>) -> bool {
    &&& outs.len() > 0
    &&& outs[0].0@ is Main
    &&& ascending(|a: IdentifierView, b: IdentifierView| ident_less(a, b), idents(outs))
    &&& forall|i: int| 0 <= i < outs.len() ==> input.has_output((#[trigger] outs[i]).0@)
    &&& forall|name: Seq<char>| #[trigger]
        input.is_split_name(name) ==> idents(outs).contains(IdentifierView::Split(name))
    &&& forall|n: DepNode, name: Seq<char>|
        input.is_split_name(name) && #[trigger] input.split_reach(name).contains(n) ==> held_before(
            outs,
            outs.len() as int,
            n,
        )
}

/// Whether every function of every split point is a function of a graph
/// with `func_bound` functions.
pub open spec fn points_in_range(points: Seq<SplitPointView>, func_bound: nat) -> bool {
    forall|k: int|
        0 <= k < points.len() ==> (#[trigger] points[k]).import_func < func_bound
            && points[k].export_func < func_bound
}

/// Whether `info` is the partition of `input`.
pub open spec fn lays_out(input: SplitInput, info: SplitProgramInfo) -> bool {
    let outs = info.output_modules@;
    &&& points_in_range(input.points, input.func_bound)
    &&& covers(input, outs)
    &&& forall|i: int|
        0 <= i < outs.len() ==> is_output(input, (#[trigger] outs[i]).0@, outs[i].1)
    &&& selects(
        as_ints(info.shared_funcs@),
        input.func_bound as int,
        |f: int| is_shared_func(input, idents(outs), f as usize),
    )
    &&& forall|n: DepNode| #[trigger]
        info.symbol_output_module@.dom().contains(n) <==> held_before(outs, outs.len() as int, n)
    &&& forall|n: DepNode| #[trigger]
        info.symbol_output_module@.dom().contains(n) ==> info.symbol_output_module@[n] < outs.len()
            && outs[info.symbol_output_module@[n] as int].1.included_symbols@.contains(n)
}

} // verus!
