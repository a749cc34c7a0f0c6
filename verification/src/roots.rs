//! The roots of the main module: where the program is entered.

use crate::graph::DepGraph;
use crate::layout::{exports_func, imports_func};
use crate::nodes::{DepNode, InputFuncId, NodeSet};
use crate::read::InputModule;
use crate::split_point::{
    export_func_of, exported_func, point_views, SplitError, SplitErrorView, SplitPoint,
    SplitPointView,
};
use vstd::prelude::*;

verus! {

/// Whether `f` is the start function, the function of one of the first
/// `exports` exports, or one of the first `imported` functions.
pub open spec fn entry_before(
    module: &InputModule,
    exports: int,
    imported: int,
    f: InputFuncId,
) -> bool {
    ||| module.start == Some(f)
    ||| exists|e: int|
        0 <= e < exports && e < module.exports@.len()
            && exported_func(#[trigger] module.exports@[e])
            == Some(f)
    ||| f < imported
}

/// Whether `f` is an entry of the program: the start function, an exported
/// function or an imported function.
pub open spec fn is_entry(module: &InputModule, f: InputFuncId) -> bool {
    entry_before(module, module.exports@.len() as int, module.imported_func_total() as int, f)
}

/// Whether export `e` exports a function that is none of the first
/// `bound` functions.
pub open spec fn exports_beyond(module: &InputModule, bound: nat, e: int) -> bool {
    &&& 0 <= e < module.exports@.len()
    &&& exported_func(module.exports@[e]) matches Some(f)
    &&& f >= bound
}

/// Whether `f` is the first entry of the program that is none of the
/// first `bound` functions: the start function; else the function of the
/// first export of such a function; else the first imported function
/// that is none of them.
pub open spec fn is_first_entry_beyond(module: &InputModule, bound: nat, f: InputFuncId) -> bool {
    if module.start matches Some(start) && start >= bound {
        module.start == Some(f)
    } else if exists|e: int| exports_beyond(module, bound, e) {
        exists|e: int|
            {
                &&& #[trigger] exports_beyond(module, bound, e)
                &&& exported_func(module.exports@[e]) == Some(f)
                &&& forall|x: int| 0 <= x < e ==> !exports_beyond(module, bound, x)
            }
    } else {
        f == bound && module.imported_func_total() > bound
    }
}

/// The roots of the main module: the entries of the program that are
/// neither the imported nor the exported function of a split point.
pub open spec fn main_roots(module: &InputModule, points: Seq<SplitPointView>) -> Set<DepNode> {
    Set::new(
        |n: DepNode|
            match n {
                DepNode::Function(f) => is_entry(module, f) && !imports_func(
                    points,
                    points.len() as int,
                    f,
                ) && !exports_func(points, points.len() as int, f),
                DepNode::DataSymbol(_) => false,
            },
    )
}

/// The roots of the main module, as nodes of `deps`.
///
/// Fails where an entry of the program is no function of `deps`, with
/// the first such entry in the error.
pub fn get_main_module_roots(
    module: &InputModule,
    deps: &DepGraph,
    split_points: &Vec<SplitPoint>,
) -> (r: Result<NodeSet, SplitError>)
    ensures
        match r {
            Ok(roots) => {
                &&& roots@ == main_roots(module, point_views(split_points@))
                &&& roots.func_bound() == deps.func_bound()
                &&& roots.data_bound() == deps.data_bound()
                &&& forall|f: InputFuncId| is_entry(module, f) ==> f < deps.func_bound()
            },
            Err(err) => exists|f: InputFuncId|
                {
                    &&& is_entry(module, f)
                    &&& f >= deps.func_bound()
                    &&& is_first_entry_beyond(module, deps.func_bound(), f)
                    &&& err@ == (SplitErrorView::FunctionOutOfRange { func: f })
                },
        },
{
    let nf = deps.func_count();
    let nd = deps.data_count();
    let ghost points = point_views(split_points@);
    let mut roots = NodeSet::new(nf, nd);
    match module.start {
        Some(f) => {
            if f >= nf {
                assert(is_entry(module, f));
                assert(is_first_entry_beyond(module, nf as nat, f));
                return Err(SplitError::FunctionOutOfRange { func: f });
            }
            roots.insert(DepNode::Function(f));
        },
        None => {},
    }
    assert(roots@ =~= Set::new(
        |n: DepNode|
            match n {
                DepNode::Function(f) => entry_before(module, 0, 0, f),
                DepNode::DataSymbol(_) => false,
            },
    ));
    let mut e: usize = 0;
    while e < module.exports.len()
        invariant
            e <= module.exports@.len(),
            nf == deps.func_bound(),
            roots.func_bound() == deps.func_bound(),
            roots.data_bound() == deps.data_bound(),
            module.start matches Some(start) ==> start < nf,
            forall|x: int| 0 <= x < e ==> !exports_beyond(module, nf as nat, x),
            roots@ == Set::new(
                |n: DepNode|
                    match n {
                        DepNode::Function(f) => entry_before(module, e as int, 0, f),
                        DepNode::DataSymbol(_) => false,
                    },
            ),
        decreases module.exports@.len() - e,
    {
        let ghost before = roots@;
        match export_func_of(&module.exports[e]) {
            Some(f) => {
                if f >= nf {
                    assert(entry_before(module, e + 1, 0, f));
                    assert(is_entry(module, f));
                    assert(exports_beyond(module, nf as nat, e as int));
                    assert(is_first_entry_beyond(module, nf as nat, f));
                    return Err(SplitError::FunctionOutOfRange { func: f });
                }
                roots.insert(DepNode::Function(f));
            },
            None => {},
        }
        assert(roots@ =~= Set::new(
            |n: DepNode|
                match n {
                    DepNode::Function(f) => entry_before(module, e + 1, 0, f),
                    DepNode::DataSymbol(_) => false,
                },
        )) by {
            assert forall|n: DepNode| roots@.contains(n) == (match n {
                DepNode::Function(f) => entry_before(module, e + 1, 0, f),
                DepNode::DataSymbol(_) => false,
            }) by {
                match n {
                    DepNode::Function(f) => {
                        if entry_before(module, e + 1, 0, f)
                            && !entry_before(module, e as int, 0, f) {
                            let x = choose|x: int|
                                0 <= x < e + 1 && x < module.exports@.len() && exported_func(
                                    #[trigger] module.exports@[x],
                                ) == Some(f);
                            assert(x == e);
                        }
                        if before.contains(n) {
                            assert(entry_before(module, e as int, 0, f));
                        }
                    },
                    DepNode::DataSymbol(_) => {},
                }
            }
        }
        e += 1;
    }
    let imported = module.imported_func_count();
    if imported > nf {
        assert(is_entry(module, nf));
        assert(is_first_entry_beyond(module, nf as nat, nf));
        return Err(SplitError::FunctionOutOfRange { func: nf });
    }
    let mut i: usize = 0;
    while i < imported
        invariant
            i <= imported <= nf,
            nf == deps.func_bound(),
            imported == module.imported_func_total(),
            roots.func_bound() == deps.func_bound(),
            roots.data_bound() == deps.data_bound(),
            roots@ == Set::new(
                |n: DepNode|
                    match n {
                        DepNode::Function(f) => entry_before(
                            module,
                            module.exports@.len() as int,
                            i as int,
                            f,
                        ),
                        DepNode::DataSymbol(_) => false,
                    },
            ),
        decreases imported - i,
    {
        roots.insert(DepNode::Function(i));
        assert(roots@ =~= Set::new(
            |n: DepNode|
                match n {
                    DepNode::Function(f) => entry_before(
                        module,
                        module.exports@.len() as int,
                        i + 1,
                        f,
                    ),
                    DepNode::DataSymbol(_) => false,
                },
        ));
        i += 1;
    }
    proof {
        roots.lemma_members_spanned();
        assert forall|f: InputFuncId| is_entry(module, f) implies f < deps.func_bound() by {
            assert(roots@.contains(DepNode::Function(f)));
        }
    }
    let mut k: usize = 0;
    while k < split_points.len()
        invariant
            k <= split_points@.len(),
            points == point_views(split_points@),
            roots.func_bound() == deps.func_bound(),
            roots.data_bound() == deps.data_bound(),
            roots@ == Set::new(
                |n: DepNode|
                    match n {
                        DepNode::Function(f) => is_entry(module, f) && !imports_func(
                            points,
                            k as int,
                            f,
                        ) && !exports_func(points, k as int, f),
                        DepNode::DataSymbol(_) => false,
                    },
            ),
        decreases split_points@.len() - k,
    {
        let ghost before = roots@;
        let point = &split_points[k];
        assert(points[k as int] == point@);
        roots.remove(DepNode::Function(point.export_func));
        roots.remove(DepNode::Function(point.import_func));
        assert(roots@ =~= Set::new(
            |n: DepNode|
                match n {
                    DepNode::Function(f) => is_entry(module, f) && !imports_func(points, k + 1, f)
                        && !exports_func(points, k + 1, f),
                    DepNode::DataSymbol(_) => false,
                },
        )) by {
            assert forall|n: DepNode| roots@.contains(n) == (match n {
                DepNode::Function(f) => is_entry(module, f) && !imports_func(points, k + 1, f)
                    && !exports_func(points, k + 1, f),
                DepNode::DataSymbol(_) => false,
            }) by {
                match n {
                    DepNode::Function(f) => {
                        lemma_point_funcs_next(points, k as int, f);
                    },
                    DepNode::DataSymbol(_) => {},
                }
            }
        }
        k += 1;
    }
    Ok(roots)
}

/// What the first `k + 1` split points import and export is what the first
/// `k` do and what split point `k` does.
pub proof fn lemma_point_funcs_next(points: Seq<SplitPointView>, k: int, f: InputFuncId)
    requires
        0 <= k < points.len(),
    ensures
        imports_func(points, k + 1, f)
            <==> imports_func(points, k, f) || points[k].import_func == f,
        exports_func(points, k + 1, f)
            <==> exports_func(points, k, f) || points[k].export_func == f,
{
    if imports_func(points, k + 1, f) && !imports_func(points, k, f) {
        let x = choose|x: int|
            0 <= x < k + 1 && x < points.len() && (#[trigger] points[x]).import_func == f;
        assert(x == k);
    }
    if exports_func(points, k + 1, f) && !exports_func(points, k, f) {
        let x = choose|x: int|
            0 <= x < k + 1 && x < points.len() && (#[trigger] points[x]).export_func == f;
        assert(x == k);
    }
    if imports_func(points, k, f) {
        let x = choose|x: int|
            0 <= x < k && x < points.len() && (#[trigger] points[x]).import_func == f;
        assert(0 <= x < k + 1);
    }
    if exports_func(points, k, f) {
        let x = choose|x: int|
            0 <= x < k && x < points.len() && (#[trigger] points[x]).export_func == f;
        assert(0 <= x < k + 1);
    }
}

} // verus!
