//! Computing the partition of the input into output modules.

use crate::chunks::{
    all_placed, assign_chunks, chunk_keys, exactly, in_split, is_chunk_key, lemma_chunk_holds,
    lemma_reached_held, lemma_split_holds, reach_of, same_fields, splits_ok,
};
use crate::graph::DepGraph;
use crate::groups::{
    get_split_points_by_module, group_names, groups_of, lemma_group_named, SplitGroup,
};
use crate::identifier::{ident_less, IdentifierView, SplitModuleIdentifier};
use crate::imports::{build_tables, fill_imports, shared_funcs_of, symbol_outputs};
use crate::layout::{
    covers, enters_module, exports_func, held_before, idents, ignored_set, imports_func,
    in_module, is_output_but_imports, lays_out, parents_lead_back, points_in_range, Output,
    OutputModuleInfo, SplitInput, SplitProgramInfo,
};
use crate::nodes::{DepNode, InputFuncId, NodeSet};
use crate::order::{ascending, name_less, names_less};
use crate::reach::{find_reachable_deps, reachable_set};
use crate::module_info::ModuleInfo;
use crate::pattern::pattern_compiles;
use crate::read::{lemma_func_imports_bounded, lemma_func_imports_grow, ExternalKind, InputModule};
use crate::roots::{
    get_main_module_roots, is_entry, is_first_entry_beyond, lemma_point_funcs_next, main_roots,
};
use crate::split_point::{
    export_candidates, export_pattern, exported_func, get_split_points, holder, import_candidates,
    import_pattern, import_problem, is_effective, lemma_last_with_key, outcome_view, paired_point,
    lemma_no_keys_no_points, pairs, point_views, SplitError, SplitPoint, SplitPointView,
};
use crate::laws::lemma_unsplit_program;
use vstd::prelude::*;

verus! {

/// Takes the imported functions of the split points out of `set`.
fn strip_ignored(set: &mut NodeSet, split_points: &Vec<SplitPoint>)
    ensures
        final(set)@ == old(set)@.difference(
            ignored_set(point_views(split_points@), split_points@.len() as int),
        ),
        final(set).func_bound() == old(set).func_bound(),
        final(set).data_bound() == old(set).data_bound(),
{
    let ghost points = point_views(split_points@);
    let mut k: usize = 0;
    assert(set@ =~= old(set)@.difference(ignored_set(points, 0)));
    while k < split_points.len()
        invariant
            k <= split_points@.len(),
            points == point_views(split_points@),
            set@ == old(set)@.difference(ignored_set(points, k as int)),
            set.func_bound() == old(set).func_bound(),
            set.data_bound() == old(set).data_bound(),
        decreases split_points@.len() - k,
    {
        assert(points[k as int] == split_points@[k as int]@);
        set.remove(DepNode::Function(split_points[k].import_func));
        proof {
            assert forall|n: DepNode|
                set@.contains(n) == old(set)@.difference(ignored_set(points, k + 1)).contains(
                    n,
                ) by {
                match n {
                    DepNode::Function(f) => {
                        lemma_point_funcs_next(points, k as int, f);
                    },
                    DepNode::DataSymbol(_) => {},
                }
            }
            assert(set@ =~= old(set)@.difference(ignored_set(points, k + 1)));
        }
        k += 1;
    }
}

/// Whether a function of split point `k` is none of the first `bound`
/// functions.
pub open spec fn point_beyond(points: Seq<SplitPointView>, bound: nat, k: int) -> bool {
    &&& 0 <= k < points.len()
    &&& points[k].import_func >= bound || points[k].export_func >= bound
}

/// Whether `f` is the first function of a split point that is none of
/// the first `bound` functions: of the first such split point the
/// imported function, or else the exported one.
pub open spec fn is_first_point_beyond(
    points: Seq<SplitPointView>,
    bound: nat,
    f: InputFuncId,
) -> bool {
    exists|k: int|
        {
            &&& #[trigger] point_beyond(points, bound, k)
            &&& forall|j: int| 0 <= j < k ==> !point_beyond(points, bound, j)
            &&& f == if points[k].import_func >= bound {
                points[k].import_func
            } else {
                points[k].export_func
            }
        }
}

/// Whether `f` is the first function that the partition reads and that
/// is none of the first `bound` functions: of a split point, or else an
/// entry of the program.
pub open spec fn is_first_beyond(
    module: &InputModule,
    points: Seq<SplitPointView>,
    bound: nat,
    f: InputFuncId,
) -> bool {
    if points_in_range(points, bound) {
        is_first_entry_beyond(module, bound, f)
    } else {
        is_first_point_beyond(points, bound, f)
    }
}

/// Sees that every function of every split point is below `func_bound`.
fn check_points(split_points: &Vec<SplitPoint>, func_bound: usize) -> (r: Result<
    (),
    SplitError,
>)
    ensures
        match r {
            Ok(_) => points_in_range(point_views(split_points@), func_bound as nat),
            Err(err) => match err {
                SplitError::FunctionOutOfRange { func } => {
                    let points = point_views(split_points@);
                    &&& func >= func_bound
                    &&& imports_func(points, points.len() as int, func) || exports_func(
                        points,
                        points.len() as int,
                        func,
                    )
                    &&& !points_in_range(points, func_bound as nat)
                    &&& is_first_point_beyond(points, func_bound as nat, func)
                },
                _ => false,
            },
        },
{
    let mut k: usize = 0;
    while k < split_points.len()
        invariant
            k <= split_points@.len(),
            points_in_range(point_views(split_points@).take(k as int), func_bound as nat),
            forall|j: int|
                0 <= j < k ==> !point_beyond(point_views(split_points@), func_bound as nat, j),
        decreases split_points@.len() - k,
    {
        let point = &split_points[k];
        assert(point_views(split_points@)[k as int] == point@);
        if point.import_func >= func_bound {
            assert(point_beyond(point_views(split_points@), func_bound as nat, k as int));
            return Err(SplitError::FunctionOutOfRange { func: point.import_func });
        }
        if point.export_func >= func_bound {
            assert(point_beyond(point_views(split_points@), func_bound as nat, k as int));
            return Err(SplitError::FunctionOutOfRange { func: point.export_func });
        }
        proof {
            let views = point_views(split_points@);
            assert forall|j: int| 0 <= j < k + 1
                implies (#[trigger] views.take(k + 1)[j]).import_func
                < func_bound && views.take(k + 1)[j].export_func < func_bound by {
                if j < k {
                    assert(views.take(k as int)[j] == views.take(k + 1)[j]);
                }
            }
        }
        k += 1;
    }
    assert(point_views(split_points@).take(split_points@.len() as int) =~= point_views(
        split_points@,
    ));
    Ok(())
}

/// Whether `input` describes the graph `deps` and the split points
/// `split_points`, all of whose functions are functions of the graph.
pub open spec fn describes(
    input: SplitInput,
    deps: &DepGraph,
    split_points: Seq<SplitPoint>,
) -> bool {
    &&& deps.wf()
    &&& input.edges == deps@
    &&& input.func_bound == deps.func_bound()
    &&& input.data_bound == deps.data_bound()
    &&& input.points == point_views(split_points)
    &&& points_in_range(input.points, input.func_bound)
}

/// The output module of the split `name` before anything is moved to a
/// chunk: what the split reaches outside the main module `main`, and its
/// split points.
fn split_output(
    deps: &DepGraph,
    split_points: &Vec<SplitPoint>,
    name: &String,
    main: &NodeSet,
    Ghost(input): Ghost<SplitInput>,
) -> (r: (SplitModuleIdentifier, OutputModuleInfo))
    requires
        describes(input, deps, split_points@),
        main@ == input.main_set(),
    ensures
        r.0@ == IdentifierView::Split(name@),
        r.1.included_symbols@ == input.split_reach(name@),
        r.1.included_symbols.func_bound() == input.func_bound,
        r.1.included_symbols.data_bound() == input.data_bound,
        parents_lead_back(
            input.walk_of(IdentifierView::Split(name@)),
            r.1.included_symbols@,
            r.1.parents@,
        ),
        point_views(r.1.split_points@) == input.points_of(IdentifierView::Split(name@)),
        r.1.shared_imports@.len() == 0,
{
    let nf = deps.func_count();
    let nd = deps.data_count();
    let ghost points = input.points;
    let mut roots = NodeSet::new(nf, nd);
    let mut mine: Vec<SplitPoint> = Vec::new();
    let mut k: usize = 0;
    assert(roots@ =~= Set::new(
        |n: DepNode|
            match n {
                DepNode::Function(f) => enters_module(points, 0, name@, f),
                DepNode::DataSymbol(_) => false,
            },
    ));
    assert(points.take(0) =~= Seq::<SplitPointView>::empty());
    assert(point_views(mine@) =~= points.take(0).filter(in_module(name@))) by {
        reveal(Seq::filter);
    }
    while k < split_points.len()
        invariant
            k <= split_points@.len(),
            points == point_views(split_points@),
            points == input.points,
            points_in_range(points, nf as nat),
            roots.func_bound() == nf,
            roots.data_bound() == nd,
            roots@ == Set::new(
                |n: DepNode|
                    match n {
                        DepNode::Function(f) => enters_module(points, k as int, name@, f),
                        DepNode::DataSymbol(_) => false,
                    },
            ),
            point_views(mine@) == points.take(k as int).filter(in_module(name@)),
        decreases split_points@.len() - k,
    {
        let point = &split_points[k];
        let ghost before = point_views(mine@);
        assert(points[k as int] == point@);
        proof {
            assert(points.take(k + 1) =~= points.take(k as int).push(point@));
            points.take(k as int).lemma_filter_push(point@, in_module(name@));
        }
        if point.module_name == *name {
            roots.insert(DepNode::Function(point.export_func));
            mine.push(point.duplicate());
            assert(point_views(mine@) =~= before.push(point@));
        }
        assert(roots@ =~= Set::new(
            |n: DepNode|
                match n {
                    DepNode::Function(f) => enters_module(points, k + 1, name@, f),
                    DepNode::DataSymbol(_) => false,
                },
        )) by {
            assert forall|n: DepNode| roots@.contains(n) == (match n {
                DepNode::Function(f) => enters_module(points, k + 1, name@, f),
                DepNode::DataSymbol(_) => false,
            }) by {
                match n {
                    DepNode::Function(f) => {
                        lemma_enters_next(points, k as int, name@, f);
                    },
                    DepNode::DataSymbol(_) => {},
                }
            }
        }
        k += 1;
    }
    assert(points.take(points.len() as int) =~= points);
    assert(roots@.difference(main@) =~= input.split_roots(name@));
    let mut found = find_reachable_deps(deps, &roots, main);
    strip_ignored(&mut found.reachable, split_points);
    let mut out = OutputModuleInfo::from(found);
    out.split_points = mine;
    (SplitModuleIdentifier::Split(name.clone()), out)
}

/// What enters a split module among the first `k + 1` split points is what
/// does among the first `k`, and what split point `k` does.
pub proof fn lemma_enters_next(points: Seq<SplitPointView>, k: int, name: Seq<char>, f: InputFuncId)
    requires
        0 <= k < points.len(),
    ensures
        enters_module(points, k + 1, name, f) <==> enters_module(points, k, name, f) || (
        points[k].module_name == name && points[k].export_func == f),
{
    if enters_module(points, k + 1, name, f) && !enters_module(points, k, name, f) {
        let x = choose|x: int|
            0 <= x < k + 1 && x < points.len() && (#[trigger] points[x]).module_name == name
                && points[x].export_func == f;
        assert(x == k);
    }
    if enters_module(points, k, name, f) {
        let x = choose|x: int|
            0 <= x < k && x < points.len() && (#[trigger] points[x]).module_name == name
                && points[x].export_func == f;
        assert(0 <= x < k + 1);
    }
}

/// Whether `reach` holds, for each group, what its split module reaches.
pub open spec fn reach_matches(
    input: SplitInput,
    groups: Seq<SplitGroup>,
    reach: Seq<Set<DepNode>>,
) -> bool {
    &&& groups_of(input.points, input.points.len() as int, groups)
    &&& reach.len() == groups.len()
    &&& forall|k: int|
        0 <= k < reach.len() ==> #[trigger] reach[k] == input.split_reach(group_names(groups)[k])
}

/// The split modules that reach a node are those of `key` exactly if the
/// groups that reach it are.
pub proof fn lemma_owned_by(
    input: SplitInput,
    groups: Seq<SplitGroup>,
    reach: Seq<Set<DepNode>>,
    m: DepNode,
    key: Seq<Seq<char>>,
)
    requires
        reach_matches(input, groups, reach),
    ensures
        input.owned_by(m, key) <==> exactly(reach, group_names(groups), m, key),
{
    let names = group_names(groups);
    let points = input.points;
    if input.owned_by(m, key) {
        assert forall|k: int| 0 <= k < reach.len() implies ((#[trigger] reach[k]).contains(m)
            <==> key.contains(names[k])) by {
            lemma_group_named(points, groups, k);
            assert(input.is_split_name(names[k]));
        }
    }
    if exactly(reach, names, m, key) {
        assert forall|name: Seq<char>| #[trigger] input.is_split_name(name) implies (
        input.split_reach(name).contains(m) <==> key.contains(name)) by {
            let p = choose|p: int|
                0 <= p < points.len() && (#[trigger] points[p]).module_name == name;
            assert(names.contains(points[p].module_name));
            let k = choose|k: int| 0 <= k < names.len() && names[k] == name;
            assert(reach[k] == input.split_reach(names[k]));
        }
    }
}

/// What `split_output` found for the split module `name`.
pub open spec fn split_found(input: SplitInput, name: Seq<char>, out: Output) -> bool {
    &&& out.0@ == IdentifierView::Split(name)
    &&& out.1.included_symbols@ == input.split_reach(name)
    &&& out.1.included_symbols.func_bound() == input.func_bound
    &&& out.1.included_symbols.data_bound() == input.data_bound
    &&& parents_lead_back(
        input.walk_of(IdentifierView::Split(name)),
        out.1.included_symbols@,
        out.1.parents@,
    )
    &&& point_views(out.1.split_points@) == input.points_of(IdentifierView::Split(name))
    &&& out.1.shared_imports@.len() == 0
}

/// Whether the splits were found, and then the chunks made of them.
pub open spec fn chunks_made(
    input: SplitInput,
    groups: Seq<SplitGroup>,
    found: Seq<Output>,
    splits: Seq<Output>,
    chunks: Seq<Output>,
) -> bool {
    &&& reach_matches(input, groups, reach_of(found))
    &&& found.len() == groups.len()
    &&& forall|k: int|
        0 <= k < found.len() ==> split_found(input, group_names(groups)[k], #[trigger] found[k])
    &&& same_fields(found, splits)
    &&& all_placed(
        reach_of(found),
        group_names(groups),
        splits,
        chunks,
        input.func_bound,
        input.data_bound,
    )
}

/// A chunk that was made is an output module of the partition.
pub proof fn lemma_chunk_output(
    input: SplitInput,
    groups: Seq<SplitGroup>,
    found: Seq<Output>,
    splits: Seq<Output>,
    chunks: Seq<Output>,
    c: int,
)
    requires
        chunks_made(input, groups, found, splits, chunks),
        0 <= c < chunks.len(),
    ensures
        chunks[c].0@ is Chunk,
        input.has_output(chunks[c].0@),
        is_output_but_imports(input, chunks[c].0@, chunks[c].1),
{
    let names = group_names(groups);
    let reach = reach_of(found);
    let key = chunk_keys(chunks)[c];
    let ident = chunks[c].0@;
    assert(ident is Chunk);
    assert(ident == IdentifierView::Chunk(key));
    assert(is_chunk_key(names, key));
    assert forall|m: DepNode| chunks[c].1.included_symbols@.contains(m) == input.included(
        ident,
    ).contains(m) by {
        lemma_chunk_holds(reach, names, splits, chunks, input.func_bound, input.data_bound, c, m);
        lemma_owned_by(input, groups, reach, m, key);
    }
    assert(chunks[c].1.included_symbols@ =~= input.included(ident));
    assert forall|j: int| 0 <= j < key.len() implies input.is_split_name(#[trigger] key[j]) by {
        assert(names.contains(key[j]));
        let g = choose|g: int| 0 <= g < names.len() && names[g] == key[j];
        lemma_group_named(input.points, groups, g);
    }
    assert(point_views(chunks[c].1.split_points@) =~= Seq::<SplitPointView>::empty());
}

/// A split, after the chunks were made, is an output module of the
/// partition.
pub proof fn lemma_split_output(
    input: SplitInput,
    groups: Seq<SplitGroup>,
    found: Seq<Output>,
    splits: Seq<Output>,
    chunks: Seq<Output>,
    k: int,
)
    requires
        chunks_made(input, groups, found, splits, chunks),
        0 <= k < splits.len(),
    ensures
        splits[k].0@ == IdentifierView::Split(group_names(groups)[k]),
        input.has_output(splits[k].0@),
        is_output_but_imports(input, splits[k].0@, splits[k].1),
{
    let names = group_names(groups);
    let reach = reach_of(found);
    let ident = splits[k].0@;
    let only = seq![names[k]];
    assert(split_found(input, names[k], found[k]));
    assert(splits[k].0 == found[k].0);
    assert(ident == IdentifierView::Split(names[k]));
    lemma_group_named(input.points, groups, k);
    assert forall|m: DepNode| splits[k].1.included_symbols@.contains(m) == input.included(
        ident,
    ).contains(m) by {
        lemma_split_holds(reach, names, splits, chunks, input.func_bound, input.data_bound, k, m);
        lemma_owned_by(input, groups, reach, m, only);
    }
    assert(splits[k].1.included_symbols@ =~= input.included(ident));
    assert forall|n: DepNode| #[trigger]
        splits[k].1.included_symbols@.contains(n) && !input.split_roots(names[k]).contains(
            n,
        ) implies splits[k].1.parents@.dom().contains(n) by {
        lemma_split_holds(reach, names, splits, chunks, input.func_bound, input.data_bound, k, n);
        assert(only[0] == names[k]);
        assert(only.contains(names[k]));
        assert(reach[k].contains(n));
        assert(found[k].1.included_symbols@.contains(n));
    }
}

/// The main module, then chunks in ascending order of their keys, then
/// the splits in ascending order of their names stand in the order of the
/// output modules.
pub proof fn lemma_output_order(
    names: Seq<Seq<char>>,
    main: Output,
    chunks: Seq<Output>,
    splits: Seq<Output>,
)
    requires
        main.0@ is Main,
        ascending(name_less(), names),
        splits.len() == names.len(),
        forall|k: int|
            0 <= k < splits.len() ==> (#[trigger] splits[k]).0@ == IdentifierView::Split(names[k]),
        forall|c: int| 0 <= c < chunks.len() ==> (#[trigger] chunks[c]).0@ is Chunk,
        ascending(|a: Seq<Seq<char>>, b: Seq<Seq<char>>| names_less(a, b), chunk_keys(chunks)),
    ensures
        ascending(
            |a: IdentifierView, b: IdentifierView| ident_less(a, b),
            idents(seq![main] + chunks + splits),
        ),
{
    let outs = seq![main] + chunks + splits;
    let ids = idents(outs);
    let lt = |a: IdentifierView, b: IdentifierView| ident_less(a, b);
    let keys = chunk_keys(chunks);
    let klt = |a: Seq<Seq<char>>, b: Seq<Seq<char>>| names_less(a, b);
    assert forall|i: int, j: int| 0 <= i < j < ids.len() implies lt(
        #[trigger] ids[i],
        #[trigger] ids[j],
    ) by {
        let c = chunks.len() as int;
        if i == 0 {
            assert(outs[0] == main);
            if j <= c {
                assert(outs[j] == chunks[j - 1]);
            } else {
                assert(outs[j] == splits[j - 1 - c]);
            }
        } else if i <= c {
            assert(outs[i] == chunks[i - 1]);
            assert(keys[i - 1] == chunks[i - 1].0@->Chunk_0);
            if j <= c {
                assert(outs[j] == chunks[j - 1]);
                assert(keys[j - 1] == chunks[j - 1].0@->Chunk_0);
                assert(klt(keys[i - 1], keys[j - 1]));
            } else {
                assert(outs[j] == splits[j - 1 - c]);
            }
        } else {
            assert(outs[i] == splits[i - 1 - c]);
            assert(outs[j] == splits[j - 1 - c]);
            assert(name_less()(names[i - 1 - c], names[j - 1 - c]));
        }
    }
}

/// The main module, the chunks and the splits together are the output
/// modules of the partition.
pub proof fn lemma_assembled(
    input: SplitInput,
    groups: Seq<SplitGroup>,
    found: Seq<Output>,
    main: Output,
    chunks: Seq<Output>,
    splits: Seq<Output>,
)
    requires
        chunks_made(input, groups, found, splits, chunks),
        main.0@ is Main,
        is_output_but_imports(input, IdentifierView::Main, main.1),
    ensures
        covers(input, seq![main] + chunks + splits),
        forall|i: int|
            0 <= i < (seq![main] + chunks + splits).len() ==> is_output_but_imports(
                input,
                (#[trigger] (seq![main] + chunks + splits)[i]).0@,
                (seq![main] + chunks + splits)[i].1,
            ),
{
    let outs = seq![main] + chunks + splits;
    let names = group_names(groups);
    let reach = reach_of(found);
    let c = chunks.len() as int;
    assert(outs[0] == main);
    assert forall|i: int| 0 <= i < outs.len() implies input.has_output((#[trigger] outs[i]).0@)
        && is_output_but_imports(input, outs[i].0@, outs[i].1) by {
        if i == 0 {
        } else if i <= c {
            assert(outs[i] == chunks[i - 1]);
            lemma_chunk_output(input, groups, found, splits, chunks, i - 1);
        } else {
            assert(outs[i] == splits[i - 1 - c]);
            lemma_split_output(input, groups, found, splits, chunks, i - 1 - c);
        }
    }
    assert forall|k: int| 0 <= k < splits.len() implies (#[trigger] splits[k]).0@
        == IdentifierView::Split(names[k]) by {
        lemma_split_output(input, groups, found, splits, chunks, k);
    }
    lemma_output_order(names, main, chunks, splits);
    assert forall|name: Seq<char>| #[trigger] input.is_split_name(name) implies idents(
        outs,
    ).contains(IdentifierView::Split(name)) by {
        let p = choose|p: int|
            0 <= p < input.points.len() && (#[trigger] input.points[p]).module_name == name;
        assert(names.contains(input.points[p].module_name));
        let k = choose|k: int| 0 <= k < names.len() && names[k] == name;
        assert(outs[1 + c + k] == splits[k]);
        assert(idents(outs)[1 + c + k] == IdentifierView::Split(name));
    }
    assert forall|n: DepNode, name: Seq<char>|
        input.is_split_name(name) && #[trigger] input.split_reach(name).contains(
            n,
        ) implies held_before(outs, outs.len() as int, n) by {
        let p = choose|p: int|
            0 <= p < input.points.len() && (#[trigger] input.points[p]).module_name == name;
        assert(names.contains(input.points[p].module_name));
        let k = choose|k: int| 0 <= k < names.len() && names[k] == name;
        assert(reach[k] == input.split_reach(names[k]));
        lemma_reached_held(reach, names, splits, chunks, input.func_bound, input.data_bound, k, n);
        if in_split(splits, n) {
            let h = choose|h: int|
                0 <= h < splits.len() && (#[trigger] splits[h]).1.included_symbols@.contains(n);
            assert(outs[1 + c + h] == splits[h]);
        } else {
            let d = choose|d: int|
                0 <= d < chunks.len() && (#[trigger] chunks[d]).1.included_symbols@.contains(n);
            assert(outs[1 + d] == chunks[d]);
        }
    }
}

/// What the partition of `module` is computed from.
pub open spec fn split_input(
    module: &InputModule,
    deps: &DepGraph,
    points: Seq<SplitPointView>,
) -> SplitInput {
    SplitInput {
        edges: deps@,
        func_bound: deps.func_bound(),
        data_bound: deps.data_bound(),
        roots: main_roots(module, points),
        points,
    }
}

/// Whether every entry of the program and every function of a split point
/// is a function of `deps`.
pub open spec fn funcs_in_range(
    module: &InputModule,
    deps: &DepGraph,
    points: Seq<SplitPointView>,
) -> bool {
    &&& points_in_range(points, deps.func_bound())
    &&& forall|f: InputFuncId| is_entry(module, f) ==> f < deps.func_bound()
}

/// Whether `f` is a function that the partition reads from its input: an
/// entry of the program or a function of a split point.
pub open spec fn is_input_func(
    module: &InputModule,
    points: Seq<SplitPointView>,
    f: InputFuncId,
) -> bool {
    ||| is_entry(module, f)
    ||| imports_func(points, points.len() as int, f)
    ||| exports_func(points, points.len() as int, f)
}

/// Computes the partition of the input into output modules: the main
/// module with what the entries of the program reach, a split for each
/// split module with what it alone reaches beyond that, and a chunk for
/// each set of two or more splits with what exactly they reach.
///
/// Fails where an entry of the program or a function of a split point is
/// no function of `dep_graph`, with the first such function in the error:
/// of the split points in their order, and then of the entries.
pub fn compute_split_modules(
    module: &InputModule,
    dep_graph: &DepGraph,
    split_points: &Vec<SplitPoint>,
) -> (r: Result<SplitProgramInfo, SplitError>)
    requires
        dep_graph.wf(),
    ensures
        match r {
            Ok(info) => {
                &&& funcs_in_range(module, dep_graph, point_views(split_points@))
                &&& lays_out(split_input(module, dep_graph, point_views(split_points@)), info)
            },
            Err(err) => match err {
                SplitError::FunctionOutOfRange { func } => {
                    &&& func >= dep_graph.func_bound()
                    &&& is_input_func(module, point_views(split_points@), func)
                    &&& is_first_beyond(
                        module,
                        point_views(split_points@),
                        dep_graph.func_bound(),
                        func,
                    )
                },
                _ => false,
            },
        },
{
    let nf = dep_graph.func_count();
    let nd = dep_graph.data_count();
    let ghost points = point_views(split_points@);
    let ghost input = split_input(module, dep_graph, points);
    match check_points(split_points, nf) {
        Ok(_) => {},
        Err(err) => {
            return Err(err);
        },
    }
    let roots = match get_main_module_roots(module, dep_graph, split_points) {
        Ok(roots) => roots,
        Err(err) => {
            return Err(err);
        },
    };
    let nothing = NodeSet::new(nf, nd);
    let mut reached = find_reachable_deps(dep_graph, &roots, &nothing);
    assert(roots@.difference(nothing@) =~= input.roots);
    strip_ignored(&mut reached.reachable, split_points);
    assert(reached.reachable@ == input.main_set());
    let main_info = OutputModuleInfo::from(reached);
    let groups = get_split_points_by_module(split_points);
    let ghost names = group_names(groups@);
    let mut splits: Vec<Output> = Vec::new();
    let mut g: usize = 0;
    while g < groups.len()
        invariant
            g <= groups@.len(),
            names == group_names(groups@),
            describes(input, dep_graph, split_points@),
            main_info.included_symbols@ == input.main_set(),
            splits@.len() == g,
            forall|k: int|
                0 <= k < g ==> split_found(input, names[k], #[trigger] splits@[k]),
        decreases groups@.len() - g,
    {
        let out = split_output(
            dep_graph,
            split_points,
            &groups[g].module_name,
            &main_info.included_symbols,
            Ghost(input),
        );
        assert(names[g as int] == groups@[g as int].module_name@);
        splits.push(out);
        g += 1;
    }
    let ghost found = splits@;
    proof {
        assert(splits_ok(names, found, nf as nat, nd as nat));
        assert(reach_matches(input, groups@, reach_of(found)));
    }
    let mut chunks = assign_chunks(&mut splits, nf, nd, Ghost(names));
    let main: Output = (SplitModuleIdentifier::Main, main_info);
    proof {
        assert(point_views(main.1.split_points@) =~= Seq::<SplitPointView>::empty());
        assert(is_output_but_imports(input, IdentifierView::Main, main.1));
        assert(chunks_made(input, groups@, found, splits@, chunks@));
        lemma_assembled(input, groups@, found, main, chunks@, splits@);
    }
    let ghost planned = seq![main] + chunks@ + splits@;
    let mut outs: Vec<Output> = Vec::new();
    outs.push(main);
    outs.append(&mut chunks);
    outs.append(&mut splits);
    assert(outs@ =~= planned);
    let (flags, rewrite) = build_tables(split_points, nf, Ghost(input));
    fill_imports(&mut outs, dep_graph, &flags, &rewrite, Ghost(input));
    proof {
        lemma_covers_kept(input, planned, outs@);
    }
    let shared_funcs = shared_funcs_of(&outs, split_points, nf, Ghost(input));
    let symbol_output_module = symbol_outputs(&outs, nf, nd);
    Ok(SplitProgramInfo { output_modules: outs, shared_funcs, symbol_output_module })
}

/// Output modules with the same identifiers that hold the same are the
/// output modules of the same partition.
pub proof fn lemma_covers_kept(input: SplitInput, before: Seq<Output>, after: Seq<Output>)
    requires
        covers(input, before),
        before.len() == after.len(),
        forall|i: int|
            0 <= i < after.len() ==> (#[trigger] after[i]).0 == before[i].0
                && after[i].1.included_symbols == before[i].1.included_symbols,
    ensures
        covers(input, after),
{
    assert(idents(after) =~= idents(before));
    assert(after[0].0 == before[0].0);
    assert forall|i: int| 0 <= i < after.len() implies input.has_output(
        (#[trigger] after[i]).0@,
    ) by {
        assert(input.has_output(before[i].0@));
    }
    assert forall|n: DepNode, name: Seq<char>|
        input.is_split_name(name) && #[trigger] input.split_reach(name).contains(
            n,
        ) implies held_before(after, after.len() as int, n) by {
        assert(held_before(before, before.len() as int, n));
        let i = choose|i: int|
            0 <= i < before.len() && i < before.len()
                && (#[trigger] before[i]).1.included_symbols@.contains(
                n,
            );
        assert(after[i].1.included_symbols@.contains(n));
    }
}

/// The split points of a module whose entries are among its functions
/// name functions of the module.
pub proof fn lemma_split_points_in_range(module: &InputModule, points: Seq<SplitPointView>)
    requires
        module.func_total() <= usize::MAX,
        forall|f: InputFuncId| is_entry(module, f) ==> f < module.func_total(),
        pairs(
            import_candidates(module),
            export_candidates(module),
            Ok::<Seq<SplitPointView>, crate::split_point::SplitErrorView>(points),
        ),
    ensures
        points_in_range(points, module.func_total()),
{
    let ins = import_candidates(module);
    let outs = export_candidates(module);
    let imports = module.imports@;
    assert forall|k: int| 0 <= k < points.len() implies (#[trigger] points[k]).import_func
        < module.func_total() && points[k].export_func < module.func_total() by {
        let ids = Seq::new(points.len(), |j: int| points[j].import as int);
        let i = points[k].import as int;
        assert(ids[k] == i);
        assert(0 <= i < ins.len() && is_effective(ins, i));
        assert(points[k] == paired_point(ins, outs, i));
        assert(import_problem(ins, outs, i) is None);
        let key = ins[i].key->0;
        lemma_last_with_key(outs, key, outs.len() as int);
        let e = holder(outs, key)->0;
        assert(outs[e].func is Some);
        assert(exported_func(module.exports@[e]) == Some(points[k].export_func));
        assert(is_entry(module, points[k].export_func));
        assert(ins[i].func is Some);
        assert(imports[i].kind == ExternalKind::Func);
        lemma_func_imports_grow(imports, i + 1, imports.len() as int);
        lemma_func_imports_bounded(imports, imports.len() as int);
    }
}

/// Whether `r` is the outcome of splitting the module of `info`: its
/// split points with the partition that they give, or the error of the
/// search for split points.
pub open spec fn is_split_of(
    info: &ModuleInfo,
    r: Result<(Vec<SplitPoint>, SplitProgramInfo), SplitError>,
) -> bool {
    let compiles = pattern_compiles(import_pattern()) && pattern_compiles(export_pattern());
    let ins = import_candidates(&info.module);
    let outs = export_candidates(&info.module);
    match r {
        Ok((points, plan)) => {
            &&& compiles
            &&& pairs(ins, outs, outcome_view(Ok(points)))
            &&& lays_out(split_input(&info.module, &info.dep_graph, point_views(points@)), plan)
        },
        Err(err) => {
            &&& !(err is FunctionOutOfRange)
            &&& compiles ==> pairs(ins, outs, outcome_view(Err(err)))
            &&& !compiles ==> err is BadPattern
        },
    }
}

/// A module none of whose imports and exports is named as a split point
/// is split into one output module, the main module, which holds what the
/// entries of the module reach, imports nothing and shares nothing.
pub proof fn lemma_split_of_plain_module(
    info: &ModuleInfo,
    r: Result<(Vec<SplitPoint>, SplitProgramInfo), SplitError>,
)
    requires
        is_split_of(info, r),
        pattern_compiles(import_pattern()) && pattern_compiles(export_pattern()),
        forall|i: int| 0 <= i < info.module.imports@.len() ==> (#[trigger] import_candidates(
            &info.module,
        )[i]).key is None,
        forall|e: int| 0 <= e < info.module.exports@.len() ==> (#[trigger] export_candidates(
            &info.module,
        )[e]).key is None,
    ensures
        r matches Ok((points, plan)) && {
            let main = reachable_set(
                info.dep_graph@,
                main_roots(&info.module, Seq::empty()),
                Set::empty(),
            );
            &&& points@.len() == 0
            &&& plan.output_modules@.len() == 1
            &&& plan.output_modules@[0].0@ is Main
            &&& plan.output_modules@[0].1.included_symbols@ == main
            &&& plan.output_modules@[0].1.shared_imports@.len() == 0
            &&& plan.output_modules@[0].1.split_points@.len() == 0
            &&& plan.shared_funcs@.len() == 0
            &&& plan.symbol_output_module@.dom() == main
        },
{
    let ins = import_candidates(&info.module);
    let outs = export_candidates(&info.module);
    match r {
        Ok((points, plan)) => {
            lemma_no_keys_no_points(ins, outs, outcome_view(Ok(points)));
            let views = point_views(points@);
            assert(views =~= Seq::empty());
            lemma_unsplit_program(split_input(&info.module, &info.dep_graph, views), plan);
        },
        Err(err) => {
            lemma_no_keys_no_points(ins, outs, outcome_view(Err(err)));
        },
    }
}

/// Finds the split points of a module and computes the partition of the
/// module into output modules.
///
/// Fails only where the search for split points fails: every function
/// that the partition reads is a function of the module, so the
/// partition itself is always found.
pub fn split_module(info: &ModuleInfo) -> (r: Result<
    (Vec<SplitPoint>, SplitProgramInfo),
    SplitError,
>)
    requires
        info.wf(),
    ensures
        is_split_of(info, r),
{
    let points = match get_split_points(&info.module) {
        Ok(points) => points,
        Err(err) => {
            return Err(err);
        },
    };
    proof {
        info.dep_graph.lemma_bounds();
        lemma_split_points_in_range(&info.module, point_views(points@));
    }
    match compute_split_modules(&info.module, &info.dep_graph, &points) {
        Ok(plan) => Ok((points, plan)),
        Err(err) => {
            // The split points and the entries are functions of the graph,
            // so this is never reached.
            proof {
                let views = point_views(points@);
                assert(points_in_range(views, info.module.func_total()));
                assert(!is_input_func(&info.module, views, err->func));
            }
            Err(err)
        },
    }
}

} // verus!
