//! What each output module imports, what the main module exports for the
//! others, and which output module holds which node.

use crate::layout::Output;
use crate::graph::DepGraph;
use crate::layout::{
    as_ints, calls_outside, exports_func, held_before, idents, imports_func, is_output,
    is_output_but_imports, is_shared_func, last_importing, points_in_range, SplitInput,
};
use crate::nodes::{DepNode, InputFuncId, NodeMap, NodeSet};
use crate::roots::lemma_point_funcs_next;
use crate::seqs::{collect_marked, lemma_selects_same, positions, selects};
use crate::split_point::{point_views, SplitPoint, SplitPointView};
use vstd::prelude::*;

verus! {

/// The function that a call of `f` is a call of, going by the first `upto`
/// split points.
pub open spec fn rewritten_before(
    points: Seq<SplitPointView>,
    upto: int,
    f: InputFuncId,
) -> InputFuncId {
    match last_importing(points, f, upto) {
        Some(k) => points[k].export_func,
        None => f,
    }
}

/// Whether `flags` says of each function whether one of the first `upto`
/// split points imports it, and `rewrite` which function a call of it is a
/// call of, a function again.
pub open spec fn tables_ok(
    points: Seq<SplitPointView>,
    upto: int,
    func_bound: nat,
    flags: Seq<bool>,
    rewrite: Seq<usize>,
) -> bool {
    &&& flags.len() == func_bound
    &&& rewrite.len() == func_bound
    &&& forall|f: InputFuncId|
        f < func_bound ==> #[trigger] flags[f as int] == imports_func(points, upto, f)
    &&& forall|f: InputFuncId|
        f < func_bound ==> #[trigger] rewrite[f as int] == rewritten_before(points, upto, f)
            && rewrite[f as int] < func_bound
}

/// For each function, whether it is the imported function of a split
/// point, and the function that a call of it is a call of.
pub(crate) fn build_tables(
    split_points: &Vec<SplitPoint>,
    func_bound: usize,
    Ghost(input): Ghost<SplitInput>,
) -> (r:
    (Vec<bool>, Vec<usize>))
    requires
        input.points == point_views(split_points@),
        points_in_range(input.points, func_bound as nat),
    ensures
        r.0@.len() == func_bound,
        r.1@.len() == func_bound,
        tables_ok(input.points, input.points.len() as int, func_bound as nat, r.0@, r.1@),
{
    let ghost points = input.points;
    let mut flags: Vec<bool> = Vec::new();
    let mut rewrite: Vec<usize> = Vec::new();
    let mut f: usize = 0;
    while f < func_bound
        invariant
            f <= func_bound,
            flags@.len() == f,
            rewrite@.len() == f,
            forall|g: int| 0 <= g < f ==> !#[trigger] flags@[g],
            forall|g: int| 0 <= g < f ==> #[trigger] rewrite@[g] == g,
        decreases func_bound - f,
    {
        flags.push(false);
        rewrite.push(f);
        f += 1;
    }
    let mut k: usize = 0;
    while k < split_points.len()
        invariant
            k <= split_points@.len(),
            points == point_views(split_points@),
            points_in_range(points, func_bound as nat),
            tables_ok(points, k as int, func_bound as nat, flags@, rewrite@),
        decreases split_points@.len() - k,
    {
        let point = &split_points[k];
        assert(points[k as int] == point@);
        let ghost old_flags = flags@;
        let ghost old_rewrite = rewrite@;
        flags.set(point.import_func, true);
        rewrite.set(point.import_func, point.export_func);
        proof {
            assert forall|f: InputFuncId| f < func_bound implies #[trigger] flags@[f as int]
                == imports_func(points, k + 1, f) by {
                lemma_point_funcs_next(points, k as int, f);
                assert(old_flags[f as int] == imports_func(points, k as int, f));
            }
            assert forall|f: InputFuncId| f < func_bound implies #[trigger] rewrite@[f as int]
                == rewritten_before(points, k + 1, f) && rewrite@[f as int] < func_bound by {
                assert(old_rewrite[f as int] == rewritten_before(points, k as int, f));
            }
        }
        k += 1;
    }
    (flags, rewrite)
}

/// Whether a call of `g` from a module holding `held` is a call of a
/// function that the module has to import.
pub open spec fn wanted(input: SplitInput, held: Set<DepNode>, g: InputFuncId) -> bool {
    !input.is_import_func(input.rewritten(g)) && !held.contains(
        DepNode::Function(input.rewritten(g)),
    )
}

/// Whether the mark of `f` is set.
pub open spec fn is_marked(marks: Seq<bool>, f: InputFuncId) -> bool {
    f < marks.len() && marks[f as int]
}

/// The functions that a module holding `included` imports: those that its
/// functions call and it does not hold, in ascending order.
pub(crate) fn shared_imports_of(
    deps: &DepGraph,
    included: &NodeSet,
    flags: &Vec<bool>,
    rewrite: &Vec<usize>,
    Ghost(input): Ghost<SplitInput>,
) -> (r: Vec<InputFuncId>)
    requires
        deps.wf(),
        input.edges == deps@,
        input.func_bound == deps.func_bound(),
        input.data_bound == deps.data_bound(),
        tables_ok(input.points, input.points.len() as int, input.func_bound, flags@, rewrite@),
    ensures
        selects(
            as_ints(r@),
            input.func_bound as int,
            |f: int| calls_outside(input, included@, f as usize),
        ),
{
    let nf = deps.func_count();
    let ghost held = included@;
    let mut marks: Vec<bool> = vec![false; nf];
    let mut caller: usize = 0;
    proof {
        deps.lemma_edges();
    }
    while caller < nf
        invariant
            caller <= nf,
            nf == input.func_bound,
            deps.wf(),
            input.edges == deps@,
            input.func_bound == deps.func_bound(),
            held == included@,
            marks@.len() == nf,
            tables_ok(input.points, input.points.len() as int, input.func_bound, flags@, rewrite@),
            forall|a: DepNode, b: DepNode| #[trigger]
                deps@.contains((a, b)) <==> deps.successors(a).contains(b),
            forall|a: DepNode, b: DepNode| #[trigger]
                deps@.contains((a, b)) ==> deps.spans(a) && deps.spans(b),
            forall|f: InputFuncId|
                f < nf && #[trigger] marks@[f as int] ==> calls_outside(input, held, f),
            forall|c: InputFuncId, g: InputFuncId|
                c < caller && held.contains(DepNode::Function(c)) && #[trigger] deps@.contains(
                    (DepNode::Function(c), DepNode::Function(g)),
                ) && wanted(input, held, g) ==> is_marked(marks@, input.rewritten(g)),
        decreases nf - caller,
    {
        let from = DepNode::Function(caller);
        if included.contains(from) {
            match deps.get(from) {
                Some(callees) => {
                    let mut i: usize = 0;
                    while i < callees.len()
                        invariant
                            i <= callees@.len(),
                            caller < nf,
                            nf == input.func_bound,
                            input.edges == deps@,
                            input.func_bound == deps.func_bound(),
                            from == DepNode::Function(caller),
                            held == included@,
                            held.contains(from),
                            callees@ == deps.successors(from),
                            marks@.len() == nf,
                            tables_ok(
                                input.points,
                                input.points.len() as int,
                                input.func_bound,
                                flags@,
                                rewrite@,
                            ),
                            forall|a: DepNode, b: DepNode| #[trigger]
                                deps@.contains((a, b)) <==> deps.successors(a).contains(b),
                            forall|a: DepNode, b: DepNode| #[trigger]
                                deps@.contains((a, b)) ==> deps.spans(a) && deps.spans(b),
                            forall|f: InputFuncId|
                                f < nf && #[trigger] marks@[f as int] ==> calls_outside(
                                    input,
                                    held,
                                    f,
                                ),
                            forall|c: InputFuncId, g: InputFuncId|
                                c < caller && held.contains(DepNode::Function(c))
                                    && #[trigger] deps@.contains(
                                    (DepNode::Function(c), DepNode::Function(g)),
                                ) && wanted(input, held, g) ==> is_marked(
                                    marks@,
                                    input.rewritten(g),
                                ),
                            forall|j: int|
                                0 <= j < i ==> match #[trigger] callees@[j] {
                                    DepNode::Function(g) => wanted(input, held, g) ==> is_marked(
                                        marks@,
                                        input.rewritten(g),
                                    ),
                                    DepNode::DataSymbol(_) => true,
                                },
                        decreases callees@.len() - i,
                    {
                        let to = callees[i];
                        assert(deps.successors(from).contains(to));
                        assert(deps@.contains((from, to)));
                        match to {
                            DepNode::Function(g) => {
                                assert(deps.spans(to));
                                let f = rewrite[g];
                                assert(f == input.rewritten(g));
                                if !flags[f] && !included.contains(DepNode::Function(f)) {
                                    assert(calls_outside(input, held, f));
                                    let ghost old_marks = marks@;
                                    marks.set(f, true);
                                    assert(forall|h: InputFuncId| #[trigger]
                                        is_marked(old_marks, h) ==> is_marked(marks@, h));
                                }
                            },
                            DepNode::DataSymbol(_) => {},
                        }
                        i += 1;
                    }
                    proof {
                        assert forall|g: InputFuncId| #[trigger]
                            deps@.contains((from, DepNode::Function(g))) && wanted(
                                input,
                                held,
                                g,
                            ) implies is_marked(marks@, input.rewritten(g)) by {
                            let to = DepNode::Function(g);
                            let j = choose|j: int| 0 <= j < callees@.len() && callees@[j] == to;
                            assert(callees@[j] == to);
                        }
                    }
                },
                None => {},
            }
        }
        caller += 1;
    }
    let found = collect_marked(&marks);
    proof {
        let keep = |i: int| 0 <= i < marks@.len() && marks@[i];
        let want = |f: int| calls_outside(input, held, f as usize);
        assert forall|i: int| 0 <= i < nf implies keep(i) == #[trigger] want(i) by {
            let f = i as usize;
            if calls_outside(input, held, f) {
                let (c, g) = choose|c: InputFuncId, g: InputFuncId|
                    {
                        &&& held.contains(DepNode::Function(c))
                        &&& #[trigger] input.edges.contains(
                            (DepNode::Function(c), DepNode::Function(g)),
                        )
                        &&& input.rewritten(g) == f
                    };
                assert(deps.spans(DepNode::Function(c)));
                assert(wanted(input, held, g));
                assert(is_marked(marks@, input.rewritten(g)));
            }
            if marks@[i] {
                assert(calls_outside(input, held, f));
            }
        }
        lemma_selects_same(positions(found@), nf as int, keep, want);
    }
    found
}

/// Gives each output module its imports.
pub(crate) fn fill_imports(
    outs: &mut Vec<Output>,
    deps: &DepGraph,
    flags: &Vec<bool>,
    rewrite: &Vec<usize>,
    Ghost(input): Ghost<SplitInput>,
)
    requires
        deps.wf(),
        input.edges == deps@,
        input.func_bound == deps.func_bound(),
        input.data_bound == deps.data_bound(),
        tables_ok(input.points, input.points.len() as int, input.func_bound, flags@, rewrite@),
        forall|i: int|
            0 <= i < old(outs)@.len() ==> is_output_but_imports(
                input,
                (#[trigger] old(outs)@[i]).0@,
                old(outs)@[i].1,
            ),
    ensures
        final(outs)@.len() == old(outs)@.len(),
        forall|i: int|
            0 <= i < final(outs)@.len() ==> {
                &&& (#[trigger] final(outs)@[i]).0 == old(outs)@[i].0
                &&& final(outs)@[i].1.included_symbols == old(outs)@[i].1.included_symbols
                &&& is_output(input, final(outs)@[i].0@, final(outs)@[i].1)
            },
{
    let mut i: usize = 0;
    while i < outs.len()
        invariant
            i <= outs@.len(),
            outs@.len() == old(outs)@.len(),
            deps.wf(),
            input.edges == deps@,
            input.func_bound == deps.func_bound(),
            input.data_bound == deps.data_bound(),
            tables_ok(input.points, input.points.len() as int, input.func_bound, flags@, rewrite@),
            forall|j: int|
                0 <= j < outs@.len() ==> {
                    &&& (#[trigger] outs@[j]).0 == old(outs)@[j].0
                    &&& outs@[j].1.included_symbols == old(outs)@[j].1.included_symbols
                    &&& is_output_but_imports(input, outs@[j].0@, outs@[j].1)
                },
            forall|j: int| 0 <= j < i ==> is_output(input, (#[trigger] outs@[j]).0@, outs@[j].1),
        decreases outs@.len() - i,
    {
        let ghost before = outs@;
        let imports = shared_imports_of(
            deps,
            &outs[i].1.included_symbols,
            flags,
            rewrite,
            Ghost(input),
        );
        proof {
            let ident = before[i as int].0@;
            let held = before[i as int].1.included_symbols@;
            assert(held == input.included(ident));
            lemma_selects_same(
                as_ints(imports@),
                input.func_bound as int,
                |f: int| calls_outside(input, held, f as usize),
                |f: int| input.shared_import(ident, f as usize),
            );
        }
        outs[i].1.shared_imports = imports;
        proof {
            assert forall|j: int| 0 <= j < outs@.len() implies {
                &&& (#[trigger] outs@[j]).0 == old(outs)@[j].0
                &&& outs@[j].1.included_symbols == old(outs)@[j].1.included_symbols
                &&& is_output_but_imports(input, outs@[j].0@, outs@[j].1)
            } by {
                if j != i {
                    assert(outs@[j] == before[j]);
                } else {
                    assert(is_output_but_imports(input, before[j].0@, before[j].1));
                }
            }
            assert forall|j: int| 0 <= j < i + 1 implies is_output(
                input,
                (#[trigger] outs@[j]).0@,
                outs@[j].1,
            ) by {
                if j != i {
                    assert(outs@[j] == before[j]);
                }
            }
        }
        i += 1;
    }
}

/// For each node that an output module holds, the position of such an
/// output module.
pub(crate) fn symbol_outputs(
    outs: &Vec<Output>,
    func_bound: usize,
    data_bound: usize,
) -> (r: NodeMap<usize>)
    requires
        forall|i: int|
            0 <= i < outs@.len() ==> (#[trigger] outs@[i]).1.included_symbols.func_bound()
                == func_bound && outs@[i].1.included_symbols.data_bound() == data_bound,
    ensures
        forall|n: DepNode| #[trigger]
            r@.dom().contains(n) <==> held_before(outs@, outs@.len() as int, n),
        forall|n: DepNode| #[trigger]
            r@.dom().contains(n)
                ==> r@[n] < outs@.len() && outs@[r@[n] as int].1.included_symbols@.contains(
                n,
            ),
{
    let mut map: NodeMap<usize> = NodeMap::new(func_bound, data_bound);
    let mut i: usize = 0;
    while i < outs.len()
        invariant
            i <= outs@.len(),
            map.func_bound() == func_bound,
            map.data_bound() == data_bound,
            forall|i: int|
                0 <= i < outs@.len() ==> (#[trigger] outs@[i]).1.included_symbols.func_bound()
                    == func_bound && outs@[i].1.included_symbols.data_bound() == data_bound,
            forall|n: DepNode| #[trigger] map@.dom().contains(n)
                <==> held_before(outs@, i as int, n),
            forall|n: DepNode| #[trigger]
                map@.dom().contains(n)
                    ==> map@[n] < outs@.len() && outs@[map@[n] as int].1.included_symbols@.contains(
                    n,
                ),
        decreases outs@.len() - i,
    {
        let held = &outs[i].1.included_symbols;
        let mut f: usize = 0;
        while f < func_bound
            invariant
                f <= func_bound,
                i < outs@.len(),
                held == &outs@[i as int].1.included_symbols,
                held.func_bound() == func_bound,
                held.data_bound() == data_bound,
                map.func_bound() == func_bound,
                map.data_bound() == data_bound,
                forall|n: DepNode| #[trigger]
                    map@.dom().contains(n) <==> held_before(outs@, i as int, n) || (held@.contains(
                        n,
                    ) && NodeSet::in_bounds(n, f as nat, 0)),
                forall|n: DepNode| #[trigger]
                    map@.dom().contains(n) ==> map@[n] < outs@.len()
                        && outs@[map@[n] as int].1.included_symbols@.contains(
                        n,
                    ),
            decreases func_bound - f,
        {
            let n = DepNode::Function(f);
            if held.contains(n) {
                map.insert(n, i);
            }
            assert(forall|m: DepNode| #[trigger]
                map@.dom().contains(m) <==> held_before(outs@, i as int, m) || (held@.contains(m)
                    && NodeSet::in_bounds(m, (f + 1) as nat, 0)));
            f += 1;
        }
        let mut d: usize = 0;
        while d < data_bound
            invariant
                d <= data_bound,
                i < outs@.len(),
                held == &outs@[i as int].1.included_symbols,
                held.func_bound() == func_bound,
                held.data_bound() == data_bound,
                map.func_bound() == func_bound,
                map.data_bound() == data_bound,
                forall|n: DepNode| #[trigger]
                    map@.dom().contains(n) <==> held_before(outs@, i as int, n) || (held@.contains(
                        n,
                    ) && NodeSet::in_bounds(n, func_bound as nat, d as nat)),
                forall|n: DepNode| #[trigger]
                    map@.dom().contains(n) ==> map@[n] < outs@.len()
                        && outs@[map@[n] as int].1.included_symbols@.contains(
                        n,
                    ),
            decreases data_bound - d,
        {
            let n = DepNode::DataSymbol(d);
            if held.contains(n) {
                map.insert(n, i);
            }
            assert(forall|m: DepNode| #[trigger]
                map@.dom().contains(m) <==> held_before(outs@, i as int, m) || (held@.contains(m)
                    && NodeSet::in_bounds(m, func_bound as nat, (d + 1) as nat)));
            d += 1;
        }
        proof {
            held.lemma_members_spanned();
            assert forall|n: DepNode| #[trigger] map@.dom().contains(n) <==> held_before(
                outs@,
                i + 1,
                n,
            ) by {
                if held_before(outs@, i + 1, n) && !held_before(outs@, i as int, n) {
                    let x = choose|x: int|
                        0 <= x < i + 1 && x < outs@.len()
                            && (#[trigger] outs@[x]).1.included_symbols@.contains(
                            n,
                        );
                    assert(x == i);
                }
                if held_before(outs@, i as int, n) {
                    let x = choose|x: int|
                        0 <= x < i && x < outs@.len()
                            && (#[trigger] outs@[x]).1.included_symbols@.contains(
                            n,
                        );
                    assert(0 <= x < i + 1);
                }
                if held@.contains(n) {
                    assert(outs@[i as int].1.included_symbols@.contains(n));
                }
            }
        }
        i += 1;
    }
    map
}

/// Setting the mark of `f` keeps the marks that were set, and sets no
/// other.
pub proof fn lemma_marks_grow(before: Seq<bool>, after: Seq<bool>, f: InputFuncId)
    requires
        f < before.len(),
        after == before.update(f as int, true),
    ensures
        is_marked(after, f),
        forall|h: InputFuncId| #[trigger] is_marked(before, h) ==> is_marked(after, h),
        forall|h: InputFuncId| h != f && #[trigger] is_marked(after, h) ==> is_marked(before, h),
{
}

/// The functions that the main module exports for the others: what any
/// output module imports, and the exported function of each split point;
/// in ascending order.
pub(crate) fn shared_funcs_of(
    outs: &Vec<Output>,
    split_points: &Vec<SplitPoint>,
    func_bound: usize,
    Ghost(input): Ghost<SplitInput>,
) -> (r: Vec<InputFuncId>)
    requires
        input.points == point_views(split_points@),
        input.func_bound == func_bound,
        points_in_range(input.points, func_bound as nat),
        forall|i: int|
            0 <= i < outs@.len() ==> selects(
                as_ints((#[trigger] outs@[i]).1.shared_imports@),
                func_bound as int,
                |f: int| input.shared_import(outs@[i].0@, f as usize),
            ),
    ensures
        selects(
            as_ints(r@),
            func_bound as int,
            |f: int| is_shared_func(input, idents(outs@), f as usize),
        ),
{
    let ghost ids = idents(outs@);
    let ghost points = input.points;
    let mut marks: Vec<bool> = vec![false; func_bound];
    let mut i: usize = 0;
    while i < outs.len()
        invariant
            i <= outs@.len(),
            ids == idents(outs@),
            marks@.len() == func_bound,
            input.func_bound == func_bound,
            forall|i: int|
                0 <= i < outs@.len() ==> selects(
                    as_ints((#[trigger] outs@[i]).1.shared_imports@),
                    func_bound as int,
                    |f: int| input.shared_import(outs@[i].0@, f as usize),
                ),
            forall|f: InputFuncId| #[trigger]
                is_marked(marks@, f) ==> is_shared_func(input, ids, f),
            forall|j: int, f: InputFuncId|
                0 <= j < i && f < func_bound && #[trigger] input.shared_import(ids[j], f)
                    ==> is_marked(marks@, f),
        decreases outs@.len() - i,
    {
        let imports = &outs[i].1.shared_imports;
        let ghost wants = |f: int| input.shared_import(outs@[i as int].0@, f as usize);
        assert(selects(as_ints(imports@), func_bound as int, wants));
        assert(ids[i as int] == outs@[i as int].0@);
        let mut j: usize = 0;
        while j < imports.len()
            invariant
                j <= imports@.len(),
                i < outs@.len(),
                ids == idents(outs@),
                marks@.len() == func_bound,
                wants == |f: int| input.shared_import(outs@[i as int].0@, f as usize),
                selects(as_ints(imports@), func_bound as int, wants),
                forall|f: InputFuncId| #[trigger]
                    is_marked(marks@, f) ==> is_shared_func(input, ids, f),
                forall|j: int, f: InputFuncId|
                    0 <= j < i && f < func_bound && #[trigger] input.shared_import(ids[j], f)
                        ==> is_marked(marks@, f),
                forall|h: int| 0 <= h < j ==> is_marked(marks@, #[trigger] imports@[h]),
            decreases imports@.len() - j,
        {
            let f = imports[j];
            let ghost old_marks = marks@;
            proof {
                assert(0 <= as_ints(imports@)[j as int] < func_bound && wants(
                    as_ints(imports@)[j as int],
                ));
                assert(input.shared_import(ids[i as int], f));
            }
            marks.set(f, true);
            proof {
                lemma_marks_grow(old_marks, marks@, f);
                assert forall|h: InputFuncId| #[trigger] is_marked(marks@, h)
                    implies is_shared_func(
                    input,
                    ids,
                    h,
                ) by {
                    if h != f {
                        assert(is_marked(old_marks, h));
                    }
                }
                assert forall|h: int| 0 <= h < j + 1 implies is_marked(
                    marks@,
                    #[trigger] imports@[h],
                ) by {
                    if h < j {
                        assert(is_marked(old_marks, imports@[h]));
                    }
                }
                assert forall|x: int, h: InputFuncId|
                    0 <= x < i && h < func_bound && #[trigger] input.shared_import(
                        ids[x],
                        h,
                    ) implies is_marked(marks@, h) by {
                    assert(is_marked(old_marks, h));
                }
            }
            j += 1;
        }
        proof {
            assert forall|h: int, f: InputFuncId|
                0 <= h < i + 1 && f < func_bound && #[trigger] input.shared_import(
                    ids[h],
                    f,
                ) implies is_marked(marks@, f) by {
                if h == i {
                    assert(wants(f as int));
                    assert(as_ints(imports@).contains(f as int));
                    let x = choose|x: int|
                        0 <= x < imports@.len() && as_ints(imports@)[x] == f as int;
                    assert(imports@[x] == f);
                }
            }
        }
        i += 1;
    }
    let mut k: usize = 0;
    while k < split_points.len()
        invariant
            k <= split_points@.len(),
            points == point_views(split_points@),
            points == input.points,
            points_in_range(points, func_bound as nat),
            ids == idents(outs@),
            marks@.len() == func_bound,
            forall|f: InputFuncId| #[trigger]
                is_marked(marks@, f) ==> is_shared_func(input, ids, f),
            forall|j: int, f: InputFuncId|
                0 <= j < outs@.len() && f < func_bound && #[trigger] input.shared_import(ids[j], f)
                    ==> is_marked(marks@, f),
            forall|f: InputFuncId| exports_func(points, k as int, f) ==> #[trigger] is_marked(
                marks@,
                f,
            ),
        decreases split_points@.len() - k,
    {
        let f = split_points[k].export_func;
        let ghost old_marks = marks@;
        assert(points[k as int] == split_points@[k as int]@);
        assert(exports_func(points, points.len() as int, f));
        marks.set(f, true);
        proof {
            lemma_marks_grow(old_marks, marks@, f);
            assert forall|h: InputFuncId| #[trigger] is_marked(marks@, h) implies is_shared_func(
                input,
                ids,
                h,
            ) by {
                if h != f {
                    assert(is_marked(old_marks, h));
                }
            }
            assert forall|x: int, h: InputFuncId|
                0 <= x < outs@.len() && h < func_bound && #[trigger] input.shared_import(
                    ids[x],
                    h,
                ) implies is_marked(marks@, h) by {
                assert(is_marked(old_marks, h));
            }
            assert forall|h: InputFuncId| exports_func(points, k + 1, h)
                implies #[trigger] is_marked(
                marks@,
                h,
            ) by {
                lemma_point_funcs_next(points, k as int, h);
                if exports_func(points, k as int, h) {
                    assert(is_marked(old_marks, h));
                }
            }
        }
        k += 1;
    }
    let found = collect_marked(&marks);
    proof {
        let keep = |i: int| 0 <= i < marks@.len() && marks@[i];
        let want = |f: int| is_shared_func(input, ids, f as usize);
        assert forall|i: int| 0 <= i < func_bound implies keep(i) == #[trigger] want(i) by {
            let f = i as usize;
            if is_shared_func(input, ids, f) {
                if input.is_export_func(f) {
                    assert(is_marked(marks@, f));
                } else {
                    let j = choose|j: int|
                        0 <= j < ids.len() && input.shared_import(#[trigger] ids[j], f);
                    assert(input.shared_import(ids[j], f));
                    assert(is_marked(marks@, f));
                }
            }
            if marks@[i] {
                assert(is_marked(marks@, f));
            }
        }
        lemma_selects_same(positions(found@), func_bound as int, keep, want);
    }
    found
}

} // verus!
