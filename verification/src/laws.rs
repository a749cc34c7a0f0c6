//! What holds of every partition.

use crate::identifier::{ident_less, IdentifierView};
use crate::emit::{
    byte_kept, covers_byte, import_less, imported_funcs, is_import_of, lies_in_segment,
    lists_imports, needs_import, FunctionImport,
};
use crate::listing::{
    chain_end, chain_limit, leads_to_roots, lemma_chain_whole, lists, parent_chain, DepListing,
};
use crate::bodies::{body_range, is_layout_of, lemma_last_position, FunctionLayout};
use crate::emit::{last_position, reference_patch, referred_func, refers_from};
use crate::loader::{chunk_names, split_entries};
use crate::module_info::{
    defined_data, edges_upto, func_entries, is_sorted_form, lemma_found_at, names_unknown_func,
    reads, reloc_edge, reloc_source, reloc_target, sorted_form, tables_of, ReadError,
};
use crate::ranges::{covers_at, ends_ascend, entry_order, first_covering, RangeEntry};
use crate::read::ByteRange;
use crate::read::InputModule;
use crate::seqs::{positions, selects};
use crate::layout::{
    as_ints, calls_outside, held_before, idents, in_module, is_output, is_shared_func,
    last_importing, lays_out, SplitInput, SplitProgramInfo,
};
use crate::nodes::{DepNode, InputFuncId};
use crate::order::{
    ascending, lemma_ascending_same_members, lemma_ascending_unique, lemma_names_irreflexive,
    lemma_names_total, lemma_names_transitive, lemma_str_irreflexive, lemma_str_total,
    lemma_str_transitive, name_less, strict_total,
};
use crate::seqs::lemma_selects_unique;
use crate::split_point::point_views;
use crate::reach::{
    lemma_reached_not_excluded, lemma_reaches_root, lemma_reaches_step, reach_in, reachable_set,
};
use vstd::prelude::*;

verus! {

/// Whether output module `i` of `info` holds `n`.
pub open spec fn holds(info: SplitProgramInfo, i: int, n: DepNode) -> bool {
    0 <= i < info.output_modules@.len() && info.output_modules@[i].1.included_symbols@.contains(n)
}

/// Whether output module `i` of `info`, and no other, holds `n`.
pub open spec fn alone_holds(info: SplitProgramInfo, i: int, n: DepNode) -> bool {
    &&& holds(info, i, n)
    &&& forall|j: int| j != i ==> !holds(info, j, n)
}

/// What a split reaches is outside the main module.
pub proof fn lemma_split_outside_main(input: SplitInput, name: Seq<char>, n: DepNode)
    requires
        input.split_reach(name).contains(n),
    ensures
        !input.main_set().contains(n),
        !input.ignored().contains(n),
{
    let roots = input.split_roots(name);
    let main = input.main_set();
    assert(roots.disjoint(main));
    let k = choose|k: nat| reach_in(input.edges, roots, main, k, n);
    lemma_reached_not_excluded(input.edges, roots, main, k, n);
}

/// A node that an output module other than the main module holds is
/// reached by a split.
pub proof fn lemma_held_is_reached(
    input: SplitInput,
    info: SplitProgramInfo,
    i: int,
    n: DepNode,
) -> (name:
    Seq<char>)
    requires
        lays_out(input, info),
        holds(info, i, n),
        !(info.output_modules@[i].0@ is Main),
    ensures
        input.is_split_name(name),
        input.split_reach(name).contains(n),
{
    let outs = info.output_modules@;
    let ident = outs[i].0@;
    assert(input.has_output(ident));
    assert(is_output(input, ident, outs[i].1));
    match ident {
        IdentifierView::Main => arbitrary(),
        IdentifierView::Chunk(names) => {
            assert(input.is_split_name(names[0]));
            assert(names.contains(names[0]));
            names[0]
        },
        IdentifierView::Split(name) => {
            assert(seq![name][0] == name);
            assert(seq![name].contains(name));
            name
        },
    }
}

/// No output module comes before itself.
pub proof fn lemma_ident_irreflexive(a: IdentifierView)
    ensures
        !ident_less(a, a),
{
    match a {
        IdentifierView::Main => {},
        IdentifierView::Chunk(names) => {
            lemma_names_irreflexive(names);
        },
        IdentifierView::Split(name) => {
            lemma_str_irreflexive(name);
        },
    }
}

/// No two output modules of a partition hold the same node.
pub proof fn lemma_outputs_disjoint(
    input: SplitInput,
    info: SplitProgramInfo,
    i: int,
    j: int,
    n: DepNode,
)
    requires
        lays_out(input, info),
        holds(info, i, n),
        holds(info, j, n),
    ensures
        i == j,
{
    let outs = info.output_modules@;
    let a = outs[i].0@;
    let b = outs[j].0@;
    if i != j {
        let lt = |x: IdentifierView, y: IdentifierView| ident_less(x, y);
        assert(idents(outs)[i] == a && idents(outs)[j] == b);
        if i < j {
            assert(lt(idents(outs)[i], idents(outs)[j]));
        } else {
            assert(lt(idents(outs)[j], idents(outs)[i]));
        }
        lemma_ident_irreflexive(a);
        assert(a != b);
        assert(is_output(input, a, outs[i].1) && is_output(input, b, outs[j].1));
        assert(input.has_output(a) && input.has_output(b));
        if a is Main {
            let name = lemma_held_is_reached(input, info, j, n);
            lemma_split_outside_main(input, name, n);
        } else if b is Main {
            let name = lemma_held_is_reached(input, info, i, n);
            lemma_split_outside_main(input, name, n);
        } else {
            let x = owners_of_ident(a);
            let y = owners_of_ident(b);
            assert(input.owned_by(n, x) && input.owned_by(n, y));
            lemma_owner_lists(input, a);
            lemma_owner_lists(input, b);
            assert forall|name: Seq<char>| x.contains(name) <==> y.contains(name) by {
                if x.contains(name) {
                    assert(input.is_split_name(name));
                }
                if y.contains(name) {
                    assert(input.is_split_name(name));
                }
            }
            lemma_ascending_same_members(x, y);
            if a is Split && b is Split {
                assert(x[0] == y[0]);
            } else if a is Chunk && b is Chunk {
            } else {
                assert(x.len() == y.len());
            }
            assert(false);
        }
    }
}

/// The names of the splits of an output module that is not the main
/// module: the key of a chunk, the name of a split.
pub open spec fn owners_of_ident(ident: IdentifierView) -> Seq<Seq<char>> {
    match ident {
        IdentifierView::Main => Seq::empty(),
        IdentifierView::Chunk(names) => names,
        IdentifierView::Split(name) => seq![name],
    }
}

/// The names of the splits of an output module are names of split
/// modules, in ascending order.
pub proof fn lemma_owner_lists(input: SplitInput, ident: IdentifierView)
    requires
        input.has_output(ident),
    ensures
        ascending(name_less(), owners_of_ident(ident)),
        forall|name: Seq<char>|
            owners_of_ident(ident).contains(name) ==> input.is_split_name(name),
{
    let names = owners_of_ident(ident);
    assert forall|name: Seq<char>| names.contains(name) implies input.is_split_name(name) by {
        let j = choose|j: int| 0 <= j < names.len() && names[j] == name;
        match ident {
            IdentifierView::Main => {},
            IdentifierView::Chunk(key) => {
                assert(input.is_split_name(key[j]));
            },
            IdentifierView::Split(only) => {},
        }
    }
}

/// Partition coverage: each node that the main module or a split reaches,
/// the imported functions of the split points apart, is held by exactly
/// one output module.
pub proof fn lemma_partition_coverage(input: SplitInput, info: SplitProgramInfo, n: DepNode)
    requires
        lays_out(input, info),
        !input.ignored().contains(n),
        reachable_set(input.edges, input.roots, Set::empty()).contains(n) || exists|
            name: Seq<char>,
        |
            input.is_split_name(name) && #[trigger] input.split_reach(name).contains(n),
    ensures
        exists|i: int| alone_holds(info, i, n),
{
    let outs = info.output_modules@;
    let i = if reachable_set(input.edges, input.roots, Set::empty()).contains(n) {
        assert(is_output(input, outs[0].0@, outs[0].1));
        assert(input.main_set().contains(n));
        0int
    } else {
        let name = choose|name: Seq<char>|
            input.is_split_name(name) && #[trigger] input.split_reach(name).contains(n);
        assert(held_before(outs, outs.len() as int, n));
        choose|i: int|
            0 <= i < outs.len() && i < outs.len()
                && (#[trigger] outs[i]).1.included_symbols@.contains(
                n,
            )
    };
    assert(holds(info, i, n));
    assert forall|j: int| j != i implies !holds(info, j, n) by {
        if holds(info, j, n) {
            lemma_outputs_disjoint(input, info, i, j, n);
        }
    }
    assert(alone_holds(info, i, n));
}

/// Main disjointness: what the main module holds, no other output module
/// holds.
pub proof fn lemma_main_disjoint(input: SplitInput, info: SplitProgramInfo, i: int, n: DepNode)
    requires
        lays_out(input, info),
        holds(info, 0, n),
        i != 0,
    ensures
        !holds(info, i, n),
{
    if holds(info, i, n) {
        lemma_outputs_disjoint(input, info, 0, i, n);
    }
}

/// Chunk correctness: a node that two different splits reach is held by
/// exactly one output module, a chunk, and the splits of its key are
/// exactly the splits that reach the node.
pub proof fn lemma_chunk_correct(
    input: SplitInput,
    info: SplitProgramInfo,
    n: DepNode,
    a: Seq<char>,
    b: Seq<char>,
)
    requires
        lays_out(input, info),
        a != b,
        input.is_split_name(a),
        input.is_split_name(b),
        input.split_reach(a).contains(n),
        input.split_reach(b).contains(n),
    ensures
        exists|i: int|
            {
                &&& alone_holds(info, i, n)
                &&& info.output_modules@[i].0@ is Chunk
                &&& input.owned_by(n, info.output_modules@[i].0@->Chunk_0)
            },
{
    let outs = info.output_modules@;
    lemma_split_outside_main(input, a, n);
    lemma_partition_coverage(input, info, n);
    let i = choose|i: int| alone_holds(info, i, n);
    let ident = outs[i].0@;
    assert(is_output(input, ident, outs[i].1));
    match ident {
        IdentifierView::Main => {
            assert(false);
        },
        IdentifierView::Chunk(names) => {
            assert(input.owned_by(n, names));
        },
        IdentifierView::Split(name) => {
            assert(input.owned_by(n, seq![name]));
            assert(seq![name].contains(a));
            assert(seq![name].contains(b));
            assert(false);
        },
    }
}

/// Shared closure: each function that an output module imports, and the
/// exported function of each split point, is among the functions that the
/// main module exports.
pub proof fn lemma_imports_exported(
    input: SplitInput,
    info: SplitProgramInfo,
    i: int,
    f: InputFuncId,
)
    requires
        lays_out(input, info),
        0 <= i < info.output_modules@.len(),
        info.output_modules@[i].1.shared_imports@.contains(f) || input.is_export_func(f),
    ensures
        info.shared_funcs@.contains(f),
{
    let outs = info.output_modules@;
    let shared = as_ints(info.shared_funcs@);
    let is_shared = |g: int| is_shared_func(input, idents(outs), g as usize);
    if outs[i].1.shared_imports@.contains(f) {
        let imports = outs[i].1.shared_imports@;
        let j = choose|j: int| 0 <= j < imports.len() && imports[j] == f;
        assert(is_output(input, outs[i].0@, outs[i].1));
        let wants = |g: int| input.shared_import(outs[i].0@, g as usize);
        assert(0 <= as_ints(imports)[j] < input.func_bound && wants(as_ints(imports)[j]));
        assert(input.shared_import(idents(outs)[i], f));
        assert(is_shared(f as int));
    } else {
        let k = choose|k: int|
            0 <= k < input.points.len() && k < input.points.len()
                && (#[trigger] input.points[k]).export_func
                == f;
        assert(f < input.func_bound);
        assert(is_shared(f as int));
    }
    assert(shared.contains(f as int));
    let p = choose|p: int| 0 <= p < shared.len() && shared[p] == f as int;
    assert(info.shared_funcs@[p] == f);
}

/// Trampoline rewriting: no output module holds or imports the imported
/// function of a split point.
pub proof fn lemma_no_trampoline(input: SplitInput, info: SplitProgramInfo, i: int, f: InputFuncId)
    requires
        lays_out(input, info),
        0 <= i < info.output_modules@.len(),
        input.is_import_func(f),
    ensures
        !holds(info, i, DepNode::Function(f)),
        !info.output_modules@[i].1.shared_imports@.contains(f),
{
    let outs = info.output_modules@;
    let n = DepNode::Function(f);
    assert(is_output(input, outs[i].0@, outs[i].1));
    assert(input.ignored().contains(n));
    if holds(info, i, n) {
        if !(outs[i].0@ is Main) {
            let name = lemma_held_is_reached(input, info, i, n);
            lemma_split_outside_main(input, name, n);
        }
    }
    let imports = outs[i].1.shared_imports@;
    if imports.contains(f) {
        let j = choose|j: int| 0 <= j < imports.len() && imports[j] == f;
        let wants = |g: int| input.shared_import(outs[i].0@, g as usize);
        assert(0 <= as_ints(imports)[j] < input.func_bound && wants(as_ints(imports)[j]));
    }
}

/// Trampoline rewriting: where a function of an output module calls the
/// imported function of a split point, the module holds or imports the
/// exported function that stands for it, unless that is itself the
/// imported function of a split point.
pub proof fn lemma_calls_rewritten(
    input: SplitInput,
    info: SplitProgramInfo,
    i: int,
    caller: InputFuncId,
    callee: InputFuncId,
)
    requires
        lays_out(input, info),
        holds(info, i, DepNode::Function(caller)),
        input.edges.contains((DepNode::Function(caller), DepNode::Function(callee))),
        input.rewritten(callee) < input.func_bound,
        !input.is_import_func(input.rewritten(callee)),
    ensures
        holds(info, i, DepNode::Function(input.rewritten(callee)))
            || info.output_modules@[i].1.shared_imports@.contains(input.rewritten(callee)),
{
    let outs = info.output_modules@;
    let f = input.rewritten(callee);
    assert(is_output(input, outs[i].0@, outs[i].1));
    if !holds(info, i, DepNode::Function(f)) {
        let imports = outs[i].1.shared_imports@;
        let wants = |g: int| input.shared_import(outs[i].0@, g as usize);
        assert(calls_outside(input, input.included(outs[i].0@), f));
        assert(wants(f as int));
        assert(as_ints(imports).contains(f as int));
        let p = choose|p: int| 0 <= p < imports.len() && as_ints(imports)[p] == f as int;
        assert(imports[p] == f);
    }
}

/// The order of the output modules is a strict total order.
pub proof fn lemma_ident_order()
    ensures
        strict_total(|a: IdentifierView, b: IdentifierView| ident_less(a, b)),
{
    let lt = |a: IdentifierView, b: IdentifierView| ident_less(a, b);
    assert forall|x: IdentifierView| !#[trigger] lt(x, x) by {
        lemma_ident_irreflexive(x);
    }
    assert forall|x: IdentifierView, y: IdentifierView, z: IdentifierView| #[trigger]
        lt(x, y) && #[trigger] lt(y, z) implies lt(x, z) by {
        match (x, y, z) {
            (IdentifierView::Chunk(a), IdentifierView::Chunk(b), IdentifierView::Chunk(c)) => {
                lemma_names_transitive(a, b, c);
            },
            (IdentifierView::Split(a), IdentifierView::Split(b), IdentifierView::Split(c)) => {
                lemma_str_transitive(a, b, c);
            },
            _ => {},
        }
    }
    assert forall|x: IdentifierView, y: IdentifierView| x != y implies #[trigger] lt(x, y) || lt(
        y,
        x,
    ) by {
        match (x, y) {
            (IdentifierView::Chunk(a), IdentifierView::Chunk(b)) => {
                lemma_names_total(a, b);
            },
            (IdentifierView::Split(a), IdentifierView::Split(b)) => {
                lemma_str_total(a, b);
            },
            _ => {},
        }
    }
}

/// An output module of one partition of an input is an output module of
/// every partition of it.
pub proof fn lemma_same_outputs(
    input: SplitInput,
    a: SplitProgramInfo,
    b: SplitProgramInfo,
    ident: IdentifierView,
)
    requires
        lays_out(input, a),
        lays_out(input, b),
        idents(a.output_modules@).contains(ident),
    ensures
        idents(b.output_modules@).contains(ident),
{
    let outs = a.output_modules@;
    let others = b.output_modules@;
    let i = choose|i: int| 0 <= i < idents(outs).len() && idents(outs)[i] == ident;
    assert(input.has_output(outs[i].0@));
    match ident {
        IdentifierView::Main => {
            assert(idents(others)[0] == ident);
        },
        IdentifierView::Split(name) => {},
        IdentifierView::Chunk(key) => {
            let n = choose|n: DepNode| input.included(ident).contains(n);
            assert(input.owned_by(n, key));
            assert(input.is_split_name(key[0]));
            assert(key.contains(key[0]));
            assert(input.split_reach(key[0]).contains(n));
            lemma_split_outside_main(input, key[0], n);
            lemma_partition_coverage(input, b, n);
            let j = choose|j: int| alone_holds(b, j, n);
            let other = others[j].0@;
            assert(is_output(input, other, others[j].1));
            assert(input.has_output(other));
            assert(!(other is Main));
            let y = owners_of_ident(other);
            assert(input.owned_by(n, y));
            lemma_owner_lists(input, other);
            lemma_owner_lists(input, ident);
            assert forall|name: Seq<char>| key.contains(name) <==> y.contains(name) by {
                if key.contains(name) {
                    assert(input.is_split_name(name));
                }
                if y.contains(name) {
                    assert(input.is_split_name(name));
                }
            }
            lemma_ascending_same_members(key, y);
            assert(other is Chunk);
            assert(idents(others)[j] == ident);
        },
    }
}

/// Determinism: two partitions of the same input have the same output
/// modules in the same order, each holding the same nodes, importing the
/// same functions and having the same split points, and they give the
/// same functions for the main module to export and the same output
/// module for each node.
pub proof fn lemma_partition_unique(input: SplitInput, a: SplitProgramInfo, b: SplitProgramInfo)
    requires
        lays_out(input, a),
        lays_out(input, b),
    ensures
        idents(a.output_modules@) == idents(b.output_modules@),
        forall|i: int|
            0 <= i < a.output_modules@.len() ==> {
                &&& (#[trigger] a.output_modules@[i]).1.included_symbols@
                    == b.output_modules@[i].1.included_symbols@
                &&& a.output_modules@[i].1.shared_imports@ == b.output_modules@[i].1.shared_imports@
                &&& point_views(a.output_modules@[i].1.split_points@) == point_views(
                    b.output_modules@[i].1.split_points@,
                )
            },
        a.shared_funcs@ == b.shared_funcs@,
        a.symbol_output_module@ == b.symbol_output_module@,
{
    let outs = a.output_modules@;
    let others = b.output_modules@;
    let lt = |x: IdentifierView, y: IdentifierView| ident_less(x, y);
    lemma_ident_order();
    assert forall|x: IdentifierView| idents(outs).contains(x) <==> idents(others).contains(x) by {
        if idents(outs).contains(x) {
            lemma_same_outputs(input, a, b, x);
        }
        if idents(others).contains(x) {
            lemma_same_outputs(input, b, a, x);
        }
    }
    lemma_ascending_unique(lt, idents(outs), idents(others));
    assert(outs.len() == idents(outs).len() && others.len() == idents(others).len());
    assert forall|i: int| 0 <= i < outs.len() implies {
        &&& (#[trigger] outs[i]).1.included_symbols@ == others[i].1.included_symbols@
        &&& outs[i].1.shared_imports@ == others[i].1.shared_imports@
        &&& point_views(outs[i].1.split_points@) == point_views(others[i].1.split_points@)
    } by {
        let ident = outs[i].0@;
        assert(idents(outs)[i] == ident && idents(others)[i] == others[i].0@);
        assert(is_output(input, ident, outs[i].1));
        assert(is_output(input, ident, others[i].1));
        let wants = |f: int| input.shared_import(ident, f as usize);
        let x = outs[i].1.shared_imports@;
        let y = others[i].1.shared_imports@;
        lemma_selects_unique(as_ints(x), as_ints(y), input.func_bound as int, wants);
        assert(x.len() == as_ints(x).len() && y.len() == as_ints(y).len());
        assert forall|j: int| 0 <= j < x.len() implies x[j] == y[j] by {
            assert(as_ints(x)[j] == as_ints(y)[j]);
        }
        assert(x =~= y);
    }
    let shared = |f: int| is_shared_func(input, idents(outs), f as usize);
    let x = a.shared_funcs@;
    let y = b.shared_funcs@;
    lemma_selects_unique(as_ints(x), as_ints(y), input.func_bound as int, shared);
    assert(x.len() == as_ints(x).len() && y.len() == as_ints(y).len());
    assert forall|j: int| 0 <= j < x.len() implies x[j] == y[j] by {
        assert(as_ints(x)[j] == as_ints(y)[j]);
    }
    assert(x =~= y);
    let m = a.symbol_output_module@;
    let w = b.symbol_output_module@;
    assert forall|n: DepNode| m.dom().contains(n) <==> w.dom().contains(n) by {
        if held_before(outs, outs.len() as int, n) {
            let i = choose|i: int|
                0 <= i < outs.len() && i < outs.len()
                    && (#[trigger] outs[i]).1.included_symbols@.contains(
                    n,
                );
            assert(others[i].1.included_symbols@.contains(n));
        }
        if held_before(others, others.len() as int, n) {
            let i = choose|i: int|
                0 <= i < others.len() && i < others.len()
                    && (#[trigger] others[i]).1.included_symbols@.contains(
                    n,
                );
            assert(outs[i].1.included_symbols@.contains(n));
        }
    }
    assert forall|n: DepNode| m.dom().contains(n) implies m[n] == w[n] by {
        assert(w.dom().contains(n));
        let i = m[n] as int;
        let j = w[n] as int;
        assert(outs[j].1.included_symbols@.contains(n));
        assert(holds(a, i, n) && holds(a, j, n));
        lemma_outputs_disjoint(input, a, i, j, n);
    }
    assert(m =~= w);
}

/// The last split point that imports `f` is a split point that imports
/// `f`.
pub proof fn lemma_last_importing(input: SplitInput, f: InputFuncId, upto: int)
    requires
        0 <= upto <= input.points.len(),
    ensures
        match last_importing(input.points, f, upto) {
            Some(k) => 0 <= k < upto && input.points[k].import_func == f,
            None => forall|k: int| 0 <= k < upto ==> (#[trigger] input.points[k]).import_func != f,
        },
    decreases upto,
{
    if upto > 0 {
        lemma_last_importing(input, f, upto - 1);
    }
}

/// The exported function of a split point is held by an output module,
/// unless it is the imported function of a split point.
pub proof fn lemma_export_held(input: SplitInput, info: SplitProgramInfo, k: int)
    requires
        lays_out(input, info),
        0 <= k < input.points.len(),
        !input.is_import_func(input.points[k].export_func),
    ensures
        held_before(
            info.output_modules@,
            info.output_modules@.len() as int,
            DepNode::Function(input.points[k].export_func),
        ),
{
    let outs = info.output_modules@;
    let f = input.points[k].export_func;
    let n = DepNode::Function(f);
    let name = input.points[k].module_name;
    assert(is_output(input, outs[0].0@, outs[0].1));
    if input.main_set().contains(n) {
        assert(outs[0].1.included_symbols@.contains(n));
    } else {
        assert(input.is_split_name(name));
        assert(input.is_entry_of(name, f));
        assert(input.split_roots(name).contains(n));
        lemma_reaches_root(input.edges, input.split_roots(name), input.main_set(), n);
        assert(input.split_reach(name).contains(n));
    }
}

/// Import closure: each function that an output module has to import is
/// held by an output module, unless it is the imported function of a
/// split point.
pub proof fn lemma_imports_held(input: SplitInput, info: SplitProgramInfo, i: int, f: InputFuncId)
    requires
        lays_out(input, info),
        0 <= i < info.output_modules@.len(),
        needs_import(info.output_modules@[i], f),
        !input.is_import_func(f),
    ensures
        held_before(info.output_modules@, info.output_modules@.len() as int, DepNode::Function(f)),
{
    let outs = info.output_modules@;
    let out = outs[i];
    let ident = out.0@;
    let n = DepNode::Function(f);
    assert(is_output(input, ident, out.1));
    assert(is_output(input, outs[0].0@, outs[0].1));
    if out.1.shared_imports@.contains(f) {
        let imports = out.1.shared_imports@;
        let j = choose|j: int| 0 <= j < imports.len() && imports[j] == f;
        let wants = |g: int| input.shared_import(ident, g as usize);
        assert(0 <= as_ints(imports)[j] < input.func_bound && wants(as_ints(imports)[j]));
        assert(calls_outside(input, input.included(ident), f));
        let (caller, callee) = choose|caller: InputFuncId, callee: InputFuncId|
            {
                &&& input.included(ident).contains(DepNode::Function(caller))
                &&& #[trigger] input.edges.contains(
                    (DepNode::Function(caller), DepNode::Function(callee)),
                )
                &&& input.rewritten(callee) == f
            };
        let from = DepNode::Function(caller);
        let to = DepNode::Function(callee);
        lemma_last_importing(input, callee, input.points.len() as int);
        match last_importing(input.points, callee, input.points.len() as int) {
            Some(k) => {
                lemma_export_held(input, info, k);
            },
            None => {
                assert(f == callee);
                if ident is Main {
                    let nothing = Set::<DepNode>::empty();
                    assert(reachable_set(input.edges, input.roots, nothing).contains(from));
                    lemma_reaches_step(input.edges, input.roots, nothing, from, to);
                    assert(input.main_set().contains(to));
                    assert(false);
                } else {
                    let name = lemma_held_is_reached(input, info, i, from);
                    if input.main_set().contains(to) {
                        assert(outs[0].1.included_symbols@.contains(to));
                    } else {
                        let roots = input.split_roots(name);
                        assert(reachable_set(input.edges, roots, input.main_set()).contains(from));
                        lemma_reaches_step(input.edges, roots, input.main_set(), from, to);
                        assert(input.split_reach(name).contains(to));
                    }
                }
            },
        }
    } else {
        let points = point_views(out.1.split_points@);
        let j = choose|j: int|
            0 <= j < points.len() && j < points.len() && (#[trigger] points[j]).export_func == f;
        assert(points == input.points_of(ident));
        match ident {
            IdentifierView::Split(name) => {
                assert(points.contains(points[j]));
                input.points.lemma_filter_contains_rev(in_module(name), points[j]);
                let k = choose|k: int| 0 <= k < input.points.len() && input.points[k] == points[j];
                lemma_export_held(input, info, k);
            },
            _ => {
                assert(false);
            },
        }
    }
}

/// A function that an output module has to import is not held by it.
pub proof fn lemma_import_not_held(
    input: SplitInput,
    info: SplitProgramInfo,
    i: int,
    f: InputFuncId,
)
    requires
        lays_out(input, info),
        0 <= i < info.output_modules@.len(),
        needs_import(info.output_modules@[i], f),
    ensures
        !holds(info, i, DepNode::Function(f)),
{
    let out = info.output_modules@[i];
    assert(is_output(input, out.0@, out.1));
    let imports = out.1.shared_imports@;
    if imports.contains(f) {
        let j = choose|j: int| 0 <= j < imports.len() && imports[j] == f;
        let wants = |g: int| input.shared_import(out.0@, g as usize);
        assert(0 <= as_ints(imports)[j] < input.func_bound && wants(as_ints(imports)[j]));
    }
}

/// The numbering of the functions of an output module gives no two
/// functions the same index: no function stands twice in the order of
/// its imported functions followed by the functions that it holds.
pub proof fn lemma_function_order_distinct(
    input: SplitInput,
    info: SplitProgramInfo,
    i: int,
    imports: Seq<FunctionImport>,
    locals: Seq<InputFuncId>,
)
    requires
        lays_out(input, info),
        0 <= i < info.output_modules@.len(),
        lists_imports(
            info.output_modules@[i],
            info.symbol_output_module@,
            info.output_modules@.len(),
            imports,
        ),
        selects(
            positions(locals),
            input.func_bound as int,
            |f: int| holds(info, i, DepNode::Function(f as usize)),
        ),
    ensures
        (imported_funcs(imports) + locals).no_duplicates(),
{
    let order = imported_funcs(imports) + locals;
    let out = info.output_modules@[i];
    let n = imports.len() as int;
    let held = |f: int| holds(info, i, DepNode::Function(f as usize));
    assert forall|a: int, b: int| 0 <= a < b < order.len() implies order[a] != order[b] by {
        if b < n {
            assert(import_less(imports[a], imports[b]));
            assert(is_import_of(
                out,
                info.symbol_output_module@,
                info.output_modules@.len(),
                imports[a],
            ));
            assert(is_import_of(
                out,
                info.symbol_output_module@,
                info.output_modules@.len(),
                imports[b],
            ));
        } else if a >= n {
            assert(positions(locals)[a - n] < positions(locals)[b - n]);
        } else {
            assert(is_import_of(
                out,
                info.symbol_output_module@,
                info.output_modules@.len(),
                imports[a],
            ));
            lemma_import_not_held(input, info, i, imports[a].func);
            assert(0 <= positions(locals)[b - n] < input.func_bound && held(
                positions(locals)[b - n],
            ));
        }
    }
}

/// Import closure: each function that an output module has to import,
/// the imported functions of the split points apart, is an import of it
/// from the output module that holds the function.
pub proof fn lemma_imports_listed(input: SplitInput, info: SplitProgramInfo, i: int, f: InputFuncId)
    requires
        lays_out(input, info),
        0 <= i < info.output_modules@.len(),
        needs_import(info.output_modules@[i], f),
        !input.is_import_func(f),
    ensures
        info.symbol_output_module@.dom().contains(DepNode::Function(f)),
        is_import_of(
            info.output_modules@[i],
            info.symbol_output_module@,
            info.output_modules@.len(),
            FunctionImport {
                from_output: info.symbol_output_module@[DepNode::Function(f)],
                func: f,
            },
        ),
        holds(info, info.symbol_output_module@[DepNode::Function(f)] as int, DepNode::Function(f)),
{
    lemma_imports_held(input, info, i, f);
    let n = DepNode::Function(f);
    assert(info.symbol_output_module@.dom().contains(n));
    assert(info.symbol_output_module@[n] < info.output_modules@.len());
}

/// Data image: each byte of a data symbol that an output module holds is
/// a byte that the module keeps of the data segment of the symbol, and no
/// other output module holds the symbol.
pub proof fn lemma_held_bytes_kept(
    input: SplitInput,
    info: SplitProgramInfo,
    module: &InputModule,
    i: int,
    symbol: int,
    pos: int,
)
    requires
        lays_out(input, info),
        0 <= symbol < module.symbols.0@.len(),
        holds(info, i, DepNode::DataSymbol(symbol as usize)),
        defined_data(module, symbol) is Some,
        defined_data(module, symbol)->0.offset <= pos < defined_data(module, symbol)->0.offset
            + defined_data(module, symbol)->0.size,
    ensures
        byte_kept(
            module,
            info.output_modules@[i].1.included_symbols@,
            defined_data(module, symbol)->0.index as int,
            module.symbols.0@.len() as int,
            pos,
        ),
        alone_holds(info, i, DepNode::DataSymbol(symbol as usize)),
{
    let held = info.output_modules@[i].1.included_symbols@;
    let segment = defined_data(module, symbol)->0.index as int;
    let n = DepNode::DataSymbol(symbol as usize);
    assert(lies_in_segment(module, held, segment, symbol));
    assert(covers_byte(module, held, segment, symbol, pos));
    assert forall|j: int| j != i implies !holds(info, j, n) by {
        if holds(info, j, n) {
            lemma_outputs_disjoint(input, info, i, j, n);
        }
    }
}

/// A program without split points has one output module, the main
/// module. It holds what the roots reach, imports nothing and has no
/// split points; the main module shares no function, and every node that
/// is held is held by it.
pub proof fn lemma_unsplit_program(input: SplitInput, info: SplitProgramInfo)
    requires
        lays_out(input, info),
        input.points.len() == 0,
    ensures
        info.output_modules@.len() == 1,
        info.output_modules@[0].0@ is Main,
        info.output_modules@[0].1.included_symbols@ == reachable_set(
            input.edges,
            input.roots,
            Set::empty(),
        ),
        info.output_modules@[0].1.shared_imports@.len() == 0,
        info.output_modules@[0].1.split_points@.len() == 0,
        info.shared_funcs@.len() == 0,
        info.symbol_output_module@.dom() == reachable_set(input.edges, input.roots, Set::empty()),
        forall|n: DepNode| #[trigger]
            info.symbol_output_module@.dom().contains(n) ==> info.symbol_output_module@[n] == 0,
        chunk_names(idents(info.output_modules@), info.output_modules@.len() as int).len() == 0,
        split_entries(idents(info.output_modules@), info.output_modules@.len() as int).len() == 0,
{
    let outs = info.output_modules@;
    let ids = idents(outs);
    let reached = reachable_set(input.edges, input.roots, Set::empty());
    assert(chunk_names(ids, 0).len() == 0 && split_entries(ids, 0).len() == 0);
    assert forall|i: int| 0 <= i < outs.len() implies (#[trigger] outs[i]).0@ is Main by {
        let ident = outs[i].0@;
        assert(input.has_output(ident));
        match ident {
            IdentifierView::Main => {},
            IdentifierView::Chunk(names) => {
                assert(input.is_split_name(names[0]));
            },
            IdentifierView::Split(name) => {},
        }
    }
    if outs.len() > 1 {
        assert(ident_less(ids[0], ids[1]));
        lemma_ident_irreflexive(IdentifierView::Main);
    }
    assert(input.main_set() =~= reached);
    assert(is_output(input, outs[0].0@, outs[0].1));
    assert forall|f: InputFuncId| !input.shared_import(IdentifierView::Main, f) by {
        if input.shared_import(IdentifierView::Main, f) {
            let (caller, callee) = choose|caller: InputFuncId, callee: InputFuncId|
                {
                    &&& reached.contains(DepNode::Function(caller))
                    &&& #[trigger] input.edges.contains(
                        (DepNode::Function(caller), DepNode::Function(callee)),
                    )
                    &&& input.rewritten(callee) == f
                };
            lemma_reaches_step(
                input.edges,
                input.roots,
                Set::empty(),
                DepNode::Function(caller),
                DepNode::Function(callee),
            );
        }
    }
    let imports = as_ints(outs[0].1.shared_imports@);
    if imports.len() > 0 {
        assert(input.shared_import(IdentifierView::Main, imports[0] as usize));
    }
    let shared = as_ints(info.shared_funcs@);
    if shared.len() > 0 {
        let f = shared[0] as usize;
        assert(is_shared_func(input, ids, f));
        let i = choose|i: int| 0 <= i < ids.len() && input.shared_import(#[trigger] ids[i], f);
        assert(ids[i] == outs[0].0@);
    }
    assert(point_views(outs[0].1.split_points@).len() == 0);
    assert forall|n: DepNode| info.symbol_output_module@.dom().contains(n) == reached.contains(
        n,
    ) by {
        if reached.contains(n) {
            assert(outs[0].1.included_symbols@.contains(n));
            assert(held_before(outs, outs.len() as int, n));
        }
    }
    assert(info.symbol_output_module@.dom() =~= reached);
}

/// In the listing of an output module of a partition the chain of
/// parents of each function is whole: it ends at a node without a parent,
/// and no larger limit gives a longer chain.
pub proof fn lemma_listed_chains_whole(
    input: SplitInput,
    info: SplitProgramInfo,
    i: int,
    module: &InputModule,
    listing: DepListing,
    k: int,
    limit: nat,
)
    requires
        lays_out(input, info),
        0 <= i < info.output_modules@.len(),
        lists(
            module,
            &info.output_modules@[i].1.included_symbols,
            &info.output_modules@[i].1.parents,
            listing,
        ),
        0 <= k < listing.functions@.len(),
        info.output_modules@[i].1.parents.func_bound()
            + info.output_modules@[i].1.parents.data_bound() <= limit,
        limit <= usize::MAX,
    ensures
        listing.functions@[k].chain@ == parent_chain(
            info.output_modules@[i].1.parents@,
            DepNode::Function(listing.functions@[k].func),
            limit,
        ),
        !info.output_modules@[i].1.parents@.dom().contains(
            chain_end(
                info.output_modules@[i].1.parents@,
                DepNode::Function(listing.functions@[k].func),
                limit,
            ),
        ),
{
    let out = info.output_modules@[i].1;
    let ident = info.output_modules@[i].0@;
    let walk = input.walk_of(ident);
    let nf = out.parents.func_bound();
    let nd = out.parents.data_bound();
    let node = DepNode::Function(listing.functions@[k].func);
    assert(is_output(input, ident, out));
    out.parents.lemma_keys_spanned();
    assert(leads_to_roots(walk, out.parents@, nf, nd));
    assert(chain_limit(nf, nd) == nf + nd);
    lemma_chain_whole(walk, out.parents@, nf, nd, node, nf + nd, limit);
    lemma_chain_whole(walk, out.parents@, nf, nd, node, limit, limit);
}

/// A program whose split points all name one split module has two
/// output modules and no chunk: the main module and the split, which
/// holds what it reaches outside the main module; what the split has to
/// import, the main module holds.
pub proof fn lemma_single_split(input: SplitInput, info: SplitProgramInfo, name: Seq<char>)
    requires
        lays_out(input, info),
        input.points.len() > 0,
        forall|k: int| 0 <= k < input.points.len() ==> (#[trigger] input.points[k]).module_name
            == name,
    ensures
        info.output_modules@.len() == 2,
        info.output_modules@[0].0@ is Main,
        info.output_modules@[1].0@ == IdentifierView::Split(name),
        info.output_modules@[0].1.included_symbols@ == input.main_set(),
        info.output_modules@[1].1.included_symbols@ == input.split_reach(name),
        point_views(info.output_modules@[1].1.split_points@) == input.points,
        forall|f: InputFuncId|
            needs_import(info.output_modules@[1], f) && !input.is_import_func(f)
                ==> #[trigger] info.output_modules@[0].1.included_symbols@.contains(
                DepNode::Function(f),
            ),
{
    let outs = info.output_modules@;
    let ids = idents(outs);
    assert(input.points[0].module_name == name);
    assert(input.is_split_name(name));
    assert forall|other: Seq<char>| input.is_split_name(other) implies other == name by {
        let k = choose|k: int|
            0 <= k < input.points.len() && (#[trigger] input.points[k]).module_name == other;
    }
    lemma_str_irreflexive(name);
    assert forall|i: int| 0 <= i < outs.len() implies {
        ||| (#[trigger] outs[i]).0@ is Main
        ||| outs[i].0@ == IdentifierView::Split(name)
    } by {
        let ident = outs[i].0@;
        assert(input.has_output(ident));
        match ident {
            IdentifierView::Main => {},
            IdentifierView::Chunk(names) => {
                assert(input.is_split_name(names[0]));
                assert(input.is_split_name(names[1]));
                assert(name_less()(names[0], names[1]));
            },
            IdentifierView::Split(other) => {},
        }
    }
    let at = choose|at: int| 0 <= at < ids.len() && ids[at] == IdentifierView::Split(name);
    assert(ids.contains(IdentifierView::Split(name)));
    assert(at != 0);
    if outs.len() > 2 {
        assert(ident_less(ids[0], ids[1]));
        assert(ident_less(ids[1], ids[2]));
        assert(outs[1].0@ == ids[1] && outs[2].0@ == ids[2]);
    }
    assert(at == 1);
    assert(outs[1].0@ == ids[1]);
    assert(is_output(input, outs[0].0@, outs[0].1));
    assert(is_output(input, outs[1].0@, outs[1].1));
    assert forall|n: DepNode|
        input.split_reach(name).contains(n) == input.owned_by(n, seq![name]) by {
        assert(seq![name][0] == name);
        assert(seq![name].contains(name));
    }
    assert(outs[1].1.included_symbols@ =~= input.split_reach(name));
    lemma_filter_keeps_all(input.points, in_module(name));
    assert forall|f: InputFuncId|
        needs_import(outs[1], f) && !input.is_import_func(f)
            implies #[trigger] outs[0].1.included_symbols@.contains(DepNode::Function(f)) by {
        lemma_imports_held(input, info, 1, f);
        let j = choose|j: int|
            0 <= j < outs.len() && j < outs.len() && (
            #[trigger] outs[j]).1.included_symbols@.contains(DepNode::Function(f));
        lemma_import_not_held(input, info, 1, f);
    }
}

/// Whether every split point of `input` names `a` or `b`, and each of
/// the two is named.
pub open spec fn has_two_splits(input: SplitInput, a: Seq<char>, b: Seq<char>) -> bool {
    &&& input.is_split_name(a)
    &&& input.is_split_name(b)
    &&& forall|k: int|
        0 <= k < input.points.len() ==> (#[trigger] input.points[k]).module_name == a
            || input.points[k].module_name == b
}

/// In a program with two split modules, `a` before `b`, each output
/// module is the main module, the split `a` with what it alone reaches
/// outside the main module, the split `b` with what it alone reaches, or
/// the chunk of the two with what both reach.
pub proof fn lemma_two_splits(
    input: SplitInput,
    info: SplitProgramInfo,
    a: Seq<char>,
    b: Seq<char>,
    i: int,
)
    requires
        lays_out(input, info),
        has_two_splits(input, a, b),
        name_less()(a, b),
        0 <= i < info.output_modules@.len(),
    ensures
        match info.output_modules@[i].0@ {
            IdentifierView::Main => info.output_modules@[i].1.included_symbols@
                == input.main_set(),
            IdentifierView::Chunk(names) => {
                &&& names == seq![a, b]
                &&& info.output_modules@[i].1.included_symbols@ == input.split_reach(a).intersect(
                    input.split_reach(b),
                )
            },
            IdentifierView::Split(name) => {
                ||| name == a && info.output_modules@[i].1.included_symbols@ == input.split_reach(
                    a,
                ).difference(input.split_reach(b))
                ||| name == b && info.output_modules@[i].1.included_symbols@ == input.split_reach(
                    b,
                ).difference(input.split_reach(a))
            },
        },
{
    let out = info.output_modules@[i];
    let ident = out.0@;
    let held = out.1.included_symbols@;
    assert(is_output(input, ident, out.1));
    assert(input.has_output(ident));
    assert forall|other: Seq<char>| input.is_split_name(other) implies other == a || other
        == b by {
        let k = choose|k: int|
            0 <= k < input.points.len() && (#[trigger] input.points[k]).module_name == other;
    }
    lemma_str_irreflexive(a);
    lemma_str_irreflexive(b);
    if name_less()(b, a) {
        lemma_str_transitive(a, b, a);
    }
    match ident {
        IdentifierView::Main => {},
        IdentifierView::Chunk(names) => {
            assert(input.is_split_name(names[0]));
            assert(input.is_split_name(names[1]));
            assert(name_less()(names[0], names[1]));
            if names.len() > 2 {
                assert(input.is_split_name(names[2]));
                assert(name_less()(names[0], names[2]));
                assert(name_less()(names[1], names[2]));
            }
            assert(names =~= seq![a, b]);
            assert forall|n: DepNode|
                input.owned_by(n, names) == (input.split_reach(a).contains(n)
                    && input.split_reach(b).contains(n)) by {
                assert(names[0] == a && names[1] == b);
                assert(names.contains(a) && names.contains(b));
            }
            assert(held =~= input.split_reach(a).intersect(input.split_reach(b)));
        },
        IdentifierView::Split(name) => {
            let only = seq![name];
            assert(only[0] == name);
            assert(only.contains(name));
            let other = if name == a {
                b
            } else {
                a
            };
            assert(!only.contains(other));
            assert forall|n: DepNode|
                input.owned_by(n, only) == (input.split_reach(name).contains(n)
                    && !input.split_reach(other).contains(n)) by {}
            assert(held =~= input.split_reach(name).difference(input.split_reach(other)));
        },
    }
}

/// In a program with two split modules, `a` before `b`, a node that both
/// reach is held by the chunk of the two and by no other output module.
pub proof fn lemma_shared_by_two(
    input: SplitInput,
    info: SplitProgramInfo,
    a: Seq<char>,
    b: Seq<char>,
    n: DepNode,
) -> (i: int)
    requires
        lays_out(input, info),
        has_two_splits(input, a, b),
        name_less()(a, b),
        input.split_reach(a).contains(n),
        input.split_reach(b).contains(n),
    ensures
        alone_holds(info, i, n),
        info.output_modules@[i].0@ == IdentifierView::Chunk(seq![a, b]),
{
    lemma_str_irreflexive(a);
    lemma_chunk_correct(input, info, n, a, b);
    let i = choose|i: int|
        {
            &&& alone_holds(info, i, n)
            &&& info.output_modules@[i].0@ is Chunk
            &&& input.owned_by(n, info.output_modules@[i].0@->Chunk_0)
        };
    lemma_two_splits(input, info, a, b, i);
    i
}

/// A function that stands in `order` has a position there.
pub proof fn lemma_position_found(order: Seq<InputFuncId>, f: InputFuncId, at: int, upto: int)
    requires
        0 <= at < upto <= order.len(),
        order[at] == f,
    ensures
        last_position(order, f, upto) is Some,
    decreases upto,
{
    if order[upto - 1] != f {
        lemma_position_found(order, f, at, upto - 1);
    }
}

/// Calls have a target: where a function that an output module of a
/// partition holds has an edge to a function, the function that a call of
/// that function is a call of has a new index in the module, as one of
/// its imports or as a function that it holds. The imported function of a
/// split point, which no output module holds, has none.
pub proof fn lemma_callee_has_index(
    input: SplitInput,
    info: SplitProgramInfo,
    i: int,
    layout: FunctionLayout,
    caller: InputFuncId,
    callee: InputFuncId,
)
    requires
        lays_out(input, info),
        0 <= i < info.output_modules@.len(),
        is_layout_of(&info, input.points, i, layout),
        holds(info, i, DepNode::Function(caller)),
        input.edges.contains((DepNode::Function(caller), DepNode::Function(callee))),
        callee < input.func_bound,
        !input.is_import_func(input.rewritten(callee)),
    ensures
        layout.targets@[callee as int] == input.rewritten(callee),
        input.rewritten(callee) < input.func_bound,
        layout.table@[input.rewritten(callee) as int] is Some,
{
    let out = info.output_modules@[i];
    let target = input.rewritten(callee);
    let n = DepNode::Function(target);
    let order = layout.order@;
    let imports = layout.imports@;
    let locals = layout.locals@;
    assert(is_output(input, out.0@, out.1));
    lemma_last_importing(input, callee, input.points.len() as int);
    assert(target < input.func_bound);
    if out.1.included_symbols@.contains(n) {
        let held = |f: int| out.1.included_symbols@.contains(DepNode::Function(f as usize));
        assert(held(target as int));
        assert(positions(locals).contains(target as int));
        let p = choose|p: int| 0 <= p < locals.len() && positions(locals)[p] == target as int;
        assert(order[imports.len() + p] == locals[p]);
        lemma_position_found(order, target, imports.len() + p, order.len() as int);
    } else {
        assert(calls_outside(input, input.included(out.0@), target));
        let wants = |g: int| input.shared_import(out.0@, g as usize);
        assert(wants(target as int));
        assert(as_ints(out.1.shared_imports@).contains(target as int));
        let q = choose|q: int|
            0 <= q < out.1.shared_imports@.len() && as_ints(out.1.shared_imports@)[q]
                == target as int;
        assert(out.1.shared_imports@[q] == target);
        assert(needs_import(out, target));
        lemma_imports_listed(input, info, i, target);
        let import = FunctionImport { from_output: info.symbol_output_module@[n], func: target };
        assert(imports.contains(import));
        let p = choose|p: int| 0 <= p < imports.len() && imports[p] == import;
        assert(order[p] == imported_funcs(imports)[p]);
        lemma_position_found(order, target, p, order.len() as int);
    }
}

/// A list all of whose items are kept is its own selection.
pub proof fn lemma_filter_keeps_all<A>(s: Seq<A>, keep: spec_fn(A) -> bool)
    requires
        forall|i: int| 0 <= i < s.len() ==> keep(#[trigger] s[i]),
    ensures
        s.filter(keep) == s,
    decreases s.len(),
{
    reveal(Seq::filter);
    if s.len() > 0 {
        lemma_filter_keeps_all(s.drop_last(), keep);
        assert(s.drop_last().push(s.last()) =~= s);
    }
}

/// The place of an output module among the four that a program with two
/// split modules `a` and `b` can have.
pub open spec fn place_of_four(ident: IdentifierView, a: Seq<char>) -> int {
    match ident {
        IdentifierView::Main => 0,
        IdentifierView::Chunk(_) => 1,
        IdentifierView::Split(name) => if name == a {
            2
        } else {
            3
        },
    }
}

/// A program with two split modules, `a` before `b`, that both reach some
/// node has four output modules: the main module, the chunk of the two,
/// the split `a` and the split `b`, in this order.
pub proof fn lemma_two_splits_outputs(
    input: SplitInput,
    info: SplitProgramInfo,
    a: Seq<char>,
    b: Seq<char>,
    n: DepNode,
)
    requires
        lays_out(input, info),
        has_two_splits(input, a, b),
        name_less()(a, b),
        input.split_reach(a).contains(n),
        input.split_reach(b).contains(n),
    ensures
        idents(info.output_modules@) == seq![
            IdentifierView::Main,
            IdentifierView::Chunk(seq![a, b]),
            IdentifierView::Split(a),
            IdentifierView::Split(b),
        ],
{
    let outs = info.output_modules@;
    let ids = idents(outs);
    let chunk = IdentifierView::Chunk(seq![a, b]);
    lemma_str_irreflexive(a);
    lemma_str_irreflexive(b);
    if name_less()(b, a) {
        lemma_str_transitive(a, b, a);
    }
    let c = lemma_shared_by_two(input, info, a, b, n);
    assert(ids[c] == chunk);
    assert(ids.contains(IdentifierView::Split(a)));
    assert(ids.contains(IdentifierView::Split(b)));
    let pa = choose|pa: int| 0 <= pa < ids.len() && ids[pa] == IdentifierView::Split(a);
    let pb = choose|pb: int| 0 <= pb < ids.len() && ids[pb] == IdentifierView::Split(b);
    assert forall|i: int| 0 <= i < ids.len() implies {
        ||| #[trigger] ids[i] == IdentifierView::Main
        ||| ids[i] == chunk
        ||| ids[i] == IdentifierView::Split(a)
        ||| ids[i] == IdentifierView::Split(b)
    } by {
        lemma_two_splits(input, info, a, b, i);
        assert(ids[i] == outs[i].0@);
    }
    assert forall|i: int, j: int| 0 <= i < j < ids.len() implies place_of_four(ids[i], a)
        < place_of_four(ids[j], a) by {
        assert(ident_less(ids[i], ids[j]));
        lemma_names_irreflexive(seq![a, b]);
    }
    assert(ids[0] == outs[0].0@);
    // The places ascend along the list, so each output module stands at
    // its place.
    if c != 1 {
        assert(place_of_four(ids[0], a) < place_of_four(ids[1], a));
        assert(place_of_four(ids[1], a) < place_of_four(ids[c], a));
    }
    if pa > 2 {
        assert(place_of_four(ids[1], a) < place_of_four(ids[2], a));
        assert(place_of_four(ids[2], a) < place_of_four(ids[pa], a));
    }
    if pb > 3 {
        assert(place_of_four(ids[2], a) < place_of_four(ids[3], a));
        assert(place_of_four(ids[3], a) < place_of_four(ids[pb], a));
    }
    if ids.len() > 4 {
        assert(place_of_four(ids[3], a) < place_of_four(ids[4], a));
    }
    assert(ids =~= seq![
        IdentifierView::Main,
        chunk,
        IdentifierView::Split(a),
        IdentifierView::Split(b),
    ]);
}

/// Where a function that an output module holds has an edge to a function
/// that the module does not hold, the module imports that function and
/// the main module exports it. For the imported function of a split
/// point the exported function that stands for it is meant.
pub proof fn lemma_call_across_outputs(
    input: SplitInput,
    info: SplitProgramInfo,
    i: int,
    caller: InputFuncId,
    callee: InputFuncId,
)
    requires
        lays_out(input, info),
        holds(info, i, DepNode::Function(caller)),
        input.edges.contains((DepNode::Function(caller), DepNode::Function(callee))),
        input.rewritten(callee) < input.func_bound,
        !input.is_import_func(input.rewritten(callee)),
        !holds(info, i, DepNode::Function(input.rewritten(callee))),
    ensures
        info.output_modules@[i].1.shared_imports@.contains(input.rewritten(callee)),
        info.shared_funcs@.contains(input.rewritten(callee)),
{
    lemma_calls_rewritten(input, info, i, caller, callee);
    lemma_imports_exported(input, info, i, input.rewritten(callee));
}

/// Whether no two bodies of defined functions share a byte.
pub open spec fn bodies_apart(module: &InputModule) -> bool {
    forall|i: int, j: int|
        0 <= i < j < module.defined_funcs@.len() ==> (#[trigger] module.defined_funcs@[i]).end
            <= (#[trigger] module.defined_funcs@[j]).start || module.defined_funcs@[j].end
            <= module.defined_funcs@[i].start
}

/// Where an entry covers a range, some entry is the first to cover it.
pub proof fn lemma_first_covering(table: Seq<RangeEntry>, range: ByteRange, k: int) -> (i: int)
    requires
        covers_at(table, range, k),
    ensures
        first_covering(table, range, i),
        i <= k,
    decreases k,
{
    if exists|j: int| 0 <= j < k && covers_at(table, range, j) {
        let j = choose|j: int| 0 <= j < k && covers_at(table, range, j);
        lemma_first_covering(table, range, j)
    } else {
        k
    }
}

/// References are edges: in a module that can be read and whose function
/// bodies lie apart, a reference to a function `g` from the body of a
/// function `f` gives the edge from `f` to `g` of the dependency graph.
pub proof fn lemma_reference_is_edge(module: &InputModule, f: InputFuncId, i: int)
    requires
        reads(module),
        bodies_apart(module),
        body_range(module, f) is Some,
        refers_from(module, body_range(module, f)->0, i),
        module.relocations@[i].range.start < module.relocations@[i].range.end,
        referred_func(module, module.relocations@[i]) is Some,
    ensures
        edges_upto(
            tables_of(module),
            module.symbols.0@,
            module.func_total(),
            module.relocations@,
            module.relocations@.len() as int,
        ).contains(
            (
                DepNode::Function(f),
                DepNode::Function(referred_func(module, module.relocations@[i])->0),
            ),
        ),
{
    let reloc = module.relocations@[i];
    let range = reloc.range;
    let entries = func_entries(module);
    let table = sorted_form(entries);
    let imported = module.imported_func_total();
    let g = referred_func(module, reloc)->0;
    let some = choose|s: Seq<RangeEntry>|
        vstd::relations::sorted_by(s, entry_order()) && #[trigger] s.to_multiset()
            == entries.to_multiset() && ends_ascend(s);
    assert(is_sorted_form(some, entries));
    assert(is_sorted_form(table, entries));
    table.to_multiset_ensures();
    entries.to_multiset_ensures();
    let d = f - imported;
    assert(entries[d].range == body_range(module, f)->0);
    assert(entries.contains(entries[d]));
    assert(entries.to_multiset().count(entries[d]) > 0);
    assert(table.contains(entries[d]));
    let k = choose|k: int| 0 <= k < table.len() && table[k] == entries[d];
    assert(covers_at(table, range, k));
    let first = lemma_first_covering(table, range, k);
    lemma_found_at(table, range, first);
    assert(table.contains(table[first]));
    assert(table.to_multiset().count(table[first]) > 0);
    assert(entries.contains(table[first]));
    let other = choose|other: int| 0 <= other < entries.len() && entries[other] == table[first];
    if other < d {
        assert(module.defined_funcs@[other].end <= module.defined_funcs@[d].start
            || module.defined_funcs@[d].end <= module.defined_funcs@[other].start);
    } else if d < other {
        assert(module.defined_funcs@[d].end <= module.defined_funcs@[other].start
            || module.defined_funcs@[other].end <= module.defined_funcs@[d].start);
    }
    assert(other == d);
    assert(table[first].id == f);
    assert(reloc_source(tables_of(module), reloc) == Ok::<Option<DepNode>, ReadError>(
        Some(DepNode::Function(f)),
    ));
    let symbol = reloc.symbol->0;
    assert(!names_unknown_func(module, symbol as int));
    assert(reloc_target(module.symbols.0@, module.func_total(), reloc) == Ok::<
        Option<DepNode>,
        ReadError,
    >(Some(DepNode::Function(g))));
    assert(reloc_edge(tables_of(module), module.symbols.0@, module.func_total(), reloc) == Ok::<
        Option<(DepNode, DepNode)>,
        ReadError,
    >(Some((DepNode::Function(f), DepNode::Function(g)))));
}

/// References can be rewritten: in an output module of the partition of
/// a module that can be read and whose function bodies lie apart, each
/// reference of five bytes to a function from the body of a function
/// that the output module holds has a new index to be written there. The
/// imported function of a split point that stands for another has none.
pub proof fn lemma_reference_has_index(
    module: &InputModule,
    input: SplitInput,
    info: SplitProgramInfo,
    output: int,
    layout: FunctionLayout,
    f: InputFuncId,
    i: int,
)
    requires
        reads(module),
        bodies_apart(module),
        input.edges == edges_upto(
            tables_of(module),
            module.symbols.0@,
            module.func_total(),
            module.relocations@,
            module.relocations@.len() as int,
        ),
        input.func_bound == module.func_total(),
        lays_out(input, info),
        0 <= output < info.output_modules@.len(),
        is_layout_of(&info, input.points, output, layout),
        layout.order@.len() <= u32::MAX,
        holds(info, output, DepNode::Function(f)),
        body_range(module, f) is Some,
        refers_from(module, body_range(module, f)->0, i),
        module.relocations@[i].range.end - module.relocations@[i].range.start == 5,
        referred_func(module, module.relocations@[i]) is Some,
        !input.is_import_func(input.rewritten(referred_func(module, module.relocations@[i])->0)),
    ensures
        reference_patch(
            module,
            body_range(module, f)->0,
            layout.targets@,
            layout.table@,
            i,
        ) is Ok,
{
    let reloc = module.relocations@[i];
    let g = referred_func(module, reloc)->0;
    let target = input.rewritten(g);
    lemma_reference_is_edge(module, f, i);
    assert(!names_unknown_func(module, reloc.symbol->0 as int));
    lemma_callee_has_index(input, info, output, layout, f, g);
    lemma_last_position(layout.order@, target, layout.order@.len() as int);
}

} // verus!
