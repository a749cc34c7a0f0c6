//! What each output module is built from: the functions that it imports,
//! the numbering of its functions, its start function, its data segments
//! and the bytes of its function bodies.

use crate::layout::Output;
use crate::layout::{exports_func, SplitProgramInfo};
use crate::nodes::{DepNode, InputFuncId};
use crate::imports::{is_marked, lemma_marks_grow, rewritten_before};
use crate::module_info::defined_data;
use crate::nodes::NodeSet;
use crate::read::{
    ByteRange, InputModule, RelocKind, Relocation, SymbolInfo, CODE_SECTION_ID,
};
use crate::seqs::{
    collect_marked, lemma_push_contains, lemma_selects_next, lemma_selects_same, positions,
    selects,
};
use crate::split_point::{point_views, SplitPoint};
use vstd::prelude::*;

verus! {

/// A function that an output module imports, and the output module that
/// holds it.
#[derive(Debug, Clone, Copy, PartialEq, Eq, Structural)]
pub struct FunctionImport {
    pub from_output: usize,
    pub func: InputFuncId,
}

/// Whether the import `a` stands before `b`: by the output module that
/// holds the function, then by the function.
pub open spec fn import_less(a: FunctionImport, b: FunctionImport) -> bool {
    a.from_output < b.from_output || (a.from_output == b.from_output && a.func < b.func)
}

/// Whether `out` has to import `f`: it is among the functions that the
/// module calls and does not hold, or it is the exported function of one
/// of its split points and the module does not hold it.
pub open spec fn needs_import(out: Output, f: InputFuncId) -> bool {
    ||| out.1.shared_imports@.contains(f)
    ||| exports_func(
        point_views(out.1.split_points@),
        out.1.split_points@.len() as int,
        f,
    ) && !out.1.included_symbols@.contains(DepNode::Function(f))
}

/// Whether `import` is an import of `out`: a function that it has to
/// import, with the output module that holds it, one of `count`.
pub open spec fn is_import_of(
    out: Output,
    holders: Map<DepNode, usize>,
    count: nat,
    import: FunctionImport,
) -> bool {
    &&& import.from_output < count
    &&& needs_import(out, import.func)
    &&& holders.dom().contains(DepNode::Function(import.func))
    &&& holders[DepNode::Function(import.func)] == import.from_output
}

/// Whether `imports` lists the imports of `out` in their order.
pub open spec fn lists_imports(
    out: Output,
    holders: Map<DepNode, usize>,
    count: nat,
    imports: Seq<FunctionImport>,
) -> bool {
    &&& forall|k: int|
        0 <= k < imports.len() ==> is_import_of(out, holders, count, #[trigger] imports[k])
    &&& forall|a: int, b: int|
        0 <= a < b < imports.len() ==> import_less(#[trigger] imports[a], #[trigger] imports[b])
    &&& forall|import: FunctionImport| #[trigger]
        is_import_of(out, holders, count, import) ==> imports.contains(import)
}

/// The functions that the output module `output` imports from the main
/// module, each with the output module that holds it, ordered by that
/// output module and then by the function. A function that no output
/// module holds is not imported.
pub fn function_imports(info: &SplitProgramInfo, output: usize) -> (r: Vec<FunctionImport>)
    requires
        output < info.output_modules@.len(),
    ensures
        lists_imports(
            info.output_modules@[output as int],
            info.symbol_output_module@,
            info.output_modules@.len(),
            r@,
        ),
{
    let out = &info.output_modules[output];
    let holders = &info.symbol_output_module;
    let nf = holders.func_count();
    let ghost points = point_views(out.1.split_points@);
    let mut marks: Vec<bool> = vec![false; nf];
    let mut i: usize = 0;
    while i < out.1.shared_imports.len()
        invariant
            i <= out.1.shared_imports@.len(),
            marks@.len() == nf,
            forall|f: InputFuncId| #[trigger] is_marked(marks@, f) ==> needs_import(*out, f),
            forall|j: int|
                0 <= j < i && out.1.shared_imports@[j] < nf ==> is_marked(
                    marks@,
                    #[trigger] out.1.shared_imports@[j],
                ),
        decreases out.1.shared_imports@.len() - i,
    {
        let f = out.1.shared_imports[i];
        if f < nf {
            let ghost before = marks@;
            marks.set(f, true);
            proof {
                lemma_marks_grow(before, marks@, f);
                assert(out.1.shared_imports@.contains(f));
                assert forall|h: InputFuncId| #[trigger] is_marked(marks@, h) implies needs_import(
                    *out,
                    h,
                ) by {
                    if h != f {
                        assert(is_marked(before, h));
                    }
                }
                assert forall|j: int|
                    0 <= j < i + 1 && out.1.shared_imports@[j] < nf implies is_marked(
                    marks@,
                    #[trigger] out.1.shared_imports@[j],
                ) by {
                    if j < i {
                        assert(is_marked(before, out.1.shared_imports@[j]));
                    }
                }
            }
        }
        i += 1;
    }
    let mut k: usize = 0;
    while k < out.1.split_points.len()
        invariant
            k <= out.1.split_points@.len(),
            points == point_views(out.1.split_points@),
            marks@.len() == nf,
            forall|f: InputFuncId| #[trigger] is_marked(marks@, f) ==> needs_import(*out, f),
            forall|j: int|
                0 <= j < out.1.shared_imports@.len() && out.1.shared_imports@[j] < nf
                    ==> is_marked(marks@, #[trigger] out.1.shared_imports@[j]),
            forall|j: int|
                0 <= j < k && points[j].export_func < nf && !out.1.included_symbols@.contains(
                    DepNode::Function((#[trigger] points[j]).export_func),
                ) ==> is_marked(marks@, points[j].export_func),
        decreases out.1.split_points@.len() - k,
    {
        let f = out.1.split_points[k].export_func;
        assert(points[k as int] == out.1.split_points@[k as int]@);
        if f < nf && !out.1.included_symbols.contains(DepNode::Function(f)) {
            let ghost before = marks@;
            marks.set(f, true);
            proof {
                lemma_marks_grow(before, marks@, f);
                assert(exports_func(points, points.len() as int, f));
                assert forall|h: InputFuncId| #[trigger] is_marked(marks@, h) implies needs_import(
                    *out,
                    h,
                ) by {
                    if h != f {
                        assert(is_marked(before, h));
                    }
                }
                assert forall|j: int|
                    0 <= j < out.1.shared_imports@.len() && out.1.shared_imports@[j]
                        < nf implies is_marked(marks@, #[trigger] out.1.shared_imports@[j]) by {
                    assert(is_marked(before, out.1.shared_imports@[j]));
                }
                assert forall|j: int|
                    0 <= j < k + 1 && points[j].export_func < nf
                        && !out.1.included_symbols@.contains(
                        DepNode::Function((#[trigger] points[j]).export_func),
                    ) implies is_marked(marks@, points[j].export_func) by {
                    if j < k {
                        assert(is_marked(before, points[j].export_func));
                    }
                }
            }
        }
        k += 1;
    }
    proof {
        holders.lemma_keys_spanned();
        // The marks are the functions below `nf` that have to be imported.
        assert forall|f: InputFuncId| f < nf && needs_import(*out, f) implies is_marked(
            marks@,
            f,
        ) by {
            if out.1.shared_imports@.contains(f) {
                let j = choose|j: int|
                    0 <= j < out.1.shared_imports@.len() && out.1.shared_imports@[j] == f;
                assert(is_marked(marks@, out.1.shared_imports@[j]));
            } else {
                let j = choose|j: int|
                    0 <= j < points.len() && j < points.len() && (#[trigger] points[j]).export_func
                        == f;
                assert(is_marked(marks@, points[j].export_func));
            }
        }
    }
    let count = info.output_modules.len();
    let mut imports: Vec<FunctionImport> = Vec::new();
    let mut t: usize = 0;
    while t < count
        invariant
            t <= count,
            count == info.output_modules@.len(),
            forall|n: DepNode| #[trigger] holders@.dom().contains(n) ==> holders.spans(n),
            nf == holders.func_bound(),
            marks@.len() == nf,
            forall|f: InputFuncId| #[trigger] is_marked(marks@, f) ==> needs_import(*out, f),
            forall|f: InputFuncId| f < nf && needs_import(*out, f)
                ==> #[trigger] is_marked(marks@, f),
            forall|j: int|
                0 <= j < imports@.len()
                    ==> is_import_of(*out, holders@, count as nat, #[trigger] imports@[j])
                    && imports@[j].from_output < t,
            forall|a: int, b: int|
                0 <= a < b < imports@.len() ==> import_less(
                    #[trigger] imports@[a],
                    #[trigger] imports@[b],
                ),
            forall|import: FunctionImport| #[trigger]
                is_import_of(*out, holders@, count as nat, import) && import.from_output < t
                    ==> imports@.contains(import),
        decreases count - t,
    {
        let mut f: usize = 0;
        while f < nf
            invariant
                f <= nf,
                t < count,
                count == info.output_modules@.len(),
                nf == holders.func_bound(),
                marks@.len() == nf,
                forall|f: InputFuncId| #[trigger] is_marked(marks@, f) ==> needs_import(*out, f),
                forall|f: InputFuncId|
                    f < nf && needs_import(*out, f) ==> #[trigger] is_marked(marks@, f),
                forall|j: int|
                    0 <= j < imports@.len()
                        ==> is_import_of(*out, holders@, count as nat, #[trigger] imports@[j])
                        && (imports@[j].from_output < t || (imports@[j].from_output == t
                        && imports@[j].func < f)),
                forall|a: int, b: int|
                    0 <= a < b < imports@.len() ==> import_less(
                        #[trigger] imports@[a],
                        #[trigger] imports@[b],
                    ),
                forall|import: FunctionImport| #[trigger]
                    is_import_of(*out, holders@, count as nat, import)
                        && (import.from_output < t || (
                    import.from_output == t && import.func < f)) ==> imports@.contains(import),
            decreases nf - f,
        {
            let ghost before = imports@;
            let mut added = false;
            if marks[f] {
                match holders.get(DepNode::Function(f)) {
                    Some(holder) => {
                        if holder == t {
                            assert(is_marked(marks@, f));
                            imports.push(FunctionImport { from_output: t, func: f });
                            added = true;
                        }
                    },
                    None => {},
                }
            }
            proof {
                let new = FunctionImport { from_output: t, func: f };
                assert forall|import: FunctionImport| #[trigger]
                    is_import_of(*out, holders@, count as nat, import)
                        && (import.from_output < t || (
                    import.from_output == t && import.func < f + 1)) implies imports@.contains(
                    import,
                ) by {
                    if added {
                        lemma_push_contains(before, new, import);
                    }
                    if import.from_output == t && import.func == f {
                        assert(is_marked(marks@, f));
                        assert(import == new);
                    } else {
                        assert(before.contains(import));
                    }
                }
            }
            f += 1;
        }
        proof {
            assert forall|import: FunctionImport| #[trigger]
                is_import_of(*out, holders@, count as nat, import) && import.from_output < t
                    + 1 implies imports@.contains(import) by {
                assert(holders.spans(DepNode::Function(import.func)));
            }
        }
        t += 1;
    }
    imports
}

/// The functions of a list of imports.
pub open spec fn imported_funcs(imports: Seq<FunctionImport>) -> Seq<InputFuncId> {
    Seq::new(imports.len(), |k: int| imports[k].func)
}

/// The functions of an output module in the order of their new indices:
/// the imported functions in the order of the imports, then the functions
/// that the module holds.
pub fn function_order(imports: &Vec<FunctionImport>, locals: &Vec<InputFuncId>) -> (r: Vec<
    InputFuncId,
>)
    ensures
        r@ == imported_funcs(imports@) + locals@,
{
    let mut order: Vec<InputFuncId> = Vec::new();
    let mut i: usize = 0;
    while i < imports.len()
        invariant
            i <= imports@.len(),
            order@ == imported_funcs(imports@).take(i as int),
        decreases imports@.len() - i,
    {
        order.push(imports[i].func);
        assert(order@ =~= imported_funcs(imports@).take(i + 1));
        i += 1;
    }
    let mut k: usize = 0;
    assert(order@ =~= imported_funcs(imports@) + locals@.take(0));
    while k < locals.len()
        invariant
            k <= locals@.len(),
            order@ == imported_funcs(imports@) + locals@.take(k as int),
        decreases locals@.len() - k,
    {
        order.push(locals[k]);
        assert(order@ =~= imported_funcs(imports@) + locals@.take(k + 1));
        k += 1;
    }
    assert(locals@.take(locals@.len() as int) =~= locals@);
    order
}

/// The last of the first `upto` positions of `order` at which `f` stands.
pub open spec fn last_position(order: Seq<InputFuncId>, f: InputFuncId, upto: int) -> Option<usize>
    decreases upto,
{
    if upto <= 0 {
        None
    } else if upto <= order.len() && order[upto - 1] == f {
        Some((upto - 1) as usize)
    } else {
        last_position(order, f, upto - 1)
    }
}

/// For each of the first `func_bound` functions of the input its new
/// index: its position in `order`, the last one where it stands there more
/// than once, and none where it does not stand there.
pub fn index_table(order: &Vec<InputFuncId>, func_bound: usize) -> (r: Vec<Option<usize>>)
    ensures
        r@.len() == func_bound,
        forall|f: InputFuncId|
            f < func_bound ==> #[trigger] r@[f as int] == last_position(
                order@,
                f,
                order@.len() as int,
            ),
{
    let mut table: Vec<Option<usize>> = Vec::new();
    let mut f: usize = 0;
    while f < func_bound
        invariant
            f <= func_bound,
            table@.len() == f,
            forall|g: int| 0 <= g < f ==> #[trigger] table@[g] is None,
        decreases func_bound - f,
    {
        table.push(None);
        f += 1;
    }
    let mut k: usize = 0;
    while k < order.len()
        invariant
            k <= order@.len(),
            table@.len() == func_bound,
            forall|f: InputFuncId|
                f < func_bound ==> #[trigger] table@[f as int] == last_position(
                    order@,
                    f,
                    k as int,
                ),
        decreases order@.len() - k,
    {
        let f = order[k];
        if f < func_bound {
            table.set(f, Some(k));
        }
        k += 1;
    }
    table
}

/// The start function of the main module: that of the input, if the main
/// module holds it.
pub fn start_function(module: &InputModule, info: &SplitProgramInfo) -> (r: Option<InputFuncId>)
    ensures
        r == match module.start {
            Some(f) => if info.output_modules@.len() > 0
                && info.output_modules@[0].1.included_symbols@.contains(DepNode::Function(f)) {
                Some(f)
            } else {
                None
            },
            None => None,
        },
{
    match module.start {
        Some(f) => {
            if info.output_modules.len() > 0 && info.output_modules[0].1.included_symbols.contains(
                DepNode::Function(f),
            ) {
                Some(f)
            } else {
                None
            }
        },
        None => None,
    }
}

/// Whether symbol `s` is a data symbol of `held` that is defined in data
/// segment `segment`.
pub open spec fn lies_in_segment(
    module: &InputModule,
    held: Set<DepNode>,
    segment: int,
    s: int,
) -> bool {
    &&& 0 <= s < module.symbols.0@.len()
    &&& held.contains(DepNode::DataSymbol(s as usize))
    &&& defined_data(module, s) matches Some(defined)
    &&& defined.index == segment
}

/// Whether a data symbol among the first `upto` symbols lies in `segment`.
pub open spec fn segment_used(
    module: &InputModule,
    held: Set<DepNode>,
    segment: int,
    upto: int,
) -> bool {
    exists|s: int| 0 <= s < upto && #[trigger] lies_in_segment(module, held, segment, s)
}

/// The data segments that a module holding `included` keeps: those in
/// which one of its data symbols is defined, in ascending order.
pub fn retained_segments(module: &InputModule, included: &NodeSet) -> (r: Vec<usize>)
    ensures
        selects(
            positions(r@),
            module.data_segment_ranges@.len() as int,
            |g: int| segment_used(module, included@, g, module.symbols.0@.len() as int),
        ),
{
    let count = module.data_segment_ranges.len();
    let total = module.symbols.len();
    let ghost held = included@;
    let mut marks: Vec<bool> = vec![false; count];
    let mut s: usize = 0;
    while s < total
        invariant
            s <= total,
            total == module.symbols.0@.len(),
            count == module.data_segment_ranges@.len(),
            held == included@,
            marks@.len() == count,
            forall|g: int|
                0 <= g < count ==> #[trigger] marks@[g] == segment_used(module, held, g, s as int),
        decreases total - s,
    {
        let ghost before = marks@;
        let mut hit: Option<usize> = None;
        if included.contains(DepNode::DataSymbol(s)) {
            match &module.symbols.0[s] {
                SymbolInfo::Data { symbol: Some(defined), .. } => {
                    let segment = defined.index as usize;
                    if segment < count {
                        marks.set(segment, true);
                        hit = Some(segment);
                    }
                },
                _ => {},
            }
        }
        proof {
            assert forall|g: int| 0 <= g < count implies #[trigger] marks@[g] == segment_used(
                module,
                held,
                g,
                s + 1,
            ) by {
                assert(before[g] == segment_used(module, held, g, s as int));
                if segment_used(module, held, g, s + 1)
                    && !segment_used(module, held, g, s as int) {
                    let x = choose|x: int|
                        0 <= x < s + 1 && #[trigger] lies_in_segment(module, held, g, x);
                    assert(x == s);
                }
                if segment_used(module, held, g, s as int) {
                    let x = choose|x: int|
                        0 <= x < s && #[trigger] lies_in_segment(module, held, g, x);
                    assert(0 <= x < s + 1);
                }
                if hit == Some(g as usize) {
                    assert(lies_in_segment(module, held, g, s as int));
                }
            }
        }
        s += 1;
    }
    let found = collect_marked(&marks);
    proof {
        lemma_selects_same(
            positions(found@),
            count as int,
            |i: int| 0 <= i < marks@.len() && marks@[i],
            |g: int| segment_used(module, held, g, module.symbols.0@.len() as int),
        );
    }
    found
}

/// Whether byte `pos` of data segment `segment` belongs to symbol `s`, a
/// data symbol of `held`.
pub open spec fn covers_byte(
    module: &InputModule,
    held: Set<DepNode>,
    segment: int,
    s: int,
    pos: int,
) -> bool {
    &&& lies_in_segment(module, held, segment, s)
    &&& defined_data(module, s)->0.offset <= pos
    &&& pos < defined_data(module, s)->0.offset + defined_data(module, s)->0.size
}

/// Whether byte `pos` of data segment `segment` belongs to one of the
/// first `upto` symbols, a data symbol of `held`.
pub open spec fn byte_kept(
    module: &InputModule,
    held: Set<DepNode>,
    segment: int,
    upto: int,
    pos: int,
) -> bool {
    exists|s: int| 0 <= s < upto && #[trigger] covers_byte(module, held, segment, s, pos)
}

/// The payload of data segment `segment` as a module holding `included`
/// emits it: the bytes of its data symbols as they are in `bytes`, the
/// payload of the segment in the input, and zero everywhere else, so that
/// every byte keeps its offset.
pub fn segment_image(
    module: &InputModule,
    included: &NodeSet,
    segment: usize,
    bytes: &Vec<u8>,
) -> (r: Vec<u8>)
    ensures
        r@.len() == bytes@.len(),
        forall|pos: int|
            0 <= pos < bytes@.len() ==> #[trigger] r@[pos] == if byte_kept(
                module,
                included@,
                segment as int,
                module.symbols.0@.len() as int,
                pos,
            ) {
                bytes@[pos]
            } else {
                0u8
            },
{
    let len = bytes.len();
    let total = module.symbols.len();
    let ghost held = included@;
    let mut keep: Vec<bool> = vec![false; len];
    let mut s: usize = 0;
    while s < total
        invariant
            s <= total,
            total == module.symbols.0@.len(),
            len == bytes@.len(),
            held == included@,
            keep@.len() == len,
            forall|pos: int|
                0 <= pos < len ==> #[trigger] keep@[pos] == byte_kept(
                    module,
                    held,
                    segment as int,
                    s as int,
                    pos,
                ),
        decreases total - s,
    {
        let ghost before = keep@;
        let ghost mut lo: int = 0;
        let ghost mut hi: int = 0;
        if included.contains(DepNode::DataSymbol(s)) {
            match &module.symbols.0[s] {
                SymbolInfo::Data { symbol: Some(defined), .. } => {
                    if defined.index as usize == segment {
                        let start = defined.offset as usize;
                        let end = match start.checked_add(defined.size as usize) {
                            Some(end) => if end < len {
                                end
                            } else {
                                len
                            },
                            None => len,
                        };
                        proof {
                            lo = start as int;
                            hi = end as int;
                        }
                        let mut pos: usize = start;
                        while pos < end
                            invariant
                                start <= pos,
                                pos <= end || pos == start,
                                lo == start,
                                hi == end,
                                end <= len,
                                keep@.len() == len,
                                before.len() == len,
                                forall|p: int|
                                    0 <= p < len ==> #[trigger] keep@[p] == (before[p] || (start
                                        <= p < pos)),
                            decreases end - pos,
                        {
                            keep.set(pos, true);
                            pos += 1;
                        }
                        assert(forall|p: int|
                            0 <= p < len ==> #[trigger] keep@[p] == (before[p] || (lo <= p < hi)));
                    }
                },
                _ => {},
            }
        }
        proof {
            assert(forall|p: int|
                0 <= p < len ==> #[trigger] keep@[p] == (before[p] || (lo <= p < hi)));
            assert forall|pos: int| 0 <= pos < len implies #[trigger] keep@[pos] == byte_kept(
                module,
                held,
                segment as int,
                s + 1,
                pos,
            ) by {
                assert(before[pos] == byte_kept(module, held, segment as int, s as int, pos));
                assert(covers_byte(module, held, segment as int, s as int, pos)
                    <==> lo <= pos < hi);
                if byte_kept(module, held, segment as int, s + 1, pos) && !byte_kept(
                    module,
                    held,
                    segment as int,
                    s as int,
                    pos,
                ) {
                    let x = choose|x: int|
                        0 <= x < s + 1 && #[trigger] covers_byte(
                            module,
                            held,
                            segment as int,
                            x,
                            pos,
                        );
                    assert(x == s);
                }
                if byte_kept(module, held, segment as int, s as int, pos) {
                    let x = choose|x: int|
                        0 <= x < s && #[trigger] covers_byte(module, held, segment as int, x, pos);
                    assert(0 <= x < s + 1);
                }
                if lo <= pos < hi {
                    assert(covers_byte(module, held, segment as int, s as int, pos));
                }
            }
        }
        s += 1;
    }
    let mut image: Vec<u8> = Vec::new();
    let mut pos: usize = 0;
    while pos < len
        invariant
            pos <= len,
            len == bytes@.len(),
            keep@.len() == len,
            image@.len() == pos,
            forall|p: int|
                0 <= p < pos ==> #[trigger] image@[p] == if keep@[p] {
                    bytes@[p]
                } else {
                    0u8
                },
        decreases len - pos,
    {
        if keep[pos] {
            image.push(bytes[pos]);
        } else {
            image.push(0);
        }
        pos += 1;
    }
    image
}

/// Bytes to write over a part of a function body, from `offset` on.
#[derive(Debug, Clone, PartialEq, Eq)]
pub struct Patch {
    pub offset: usize,
    pub bytes: Vec<u8>,
}

/// Whether `patch` lies within a body of `len` bytes.
pub open spec fn patch_fits(len: nat, patch: Patch) -> bool {
    patch.offset + patch.bytes@.len() <= len
}

/// Whether `patch` writes byte `pos`.
pub open spec fn patch_covers(patch: Patch, pos: int) -> bool {
    patch.offset <= pos < patch.offset + patch.bytes@.len()
}

/// Byte `pos` of `body` after the first `upto` patches: what the last of
/// them that covers it writes there, or the byte of the body.
pub open spec fn patched_byte(body: Seq<u8>, patches: Seq<Patch>, upto: int, pos: int) -> u8
    decreases upto,
{
    if upto <= 0 || upto > patches.len() {
        body[pos]
    } else if patch_covers(patches[upto - 1], pos) {
        patches[upto - 1].bytes@[pos - patches[upto - 1].offset]
    } else {
        patched_byte(body, patches, upto - 1, pos)
    }
}

/// Byte preservation: a byte that no patch covers is the byte of the
/// body.
pub proof fn lemma_unpatched_byte(body: Seq<u8>, patches: Seq<Patch>, upto: int, pos: int)
    requires
        0 <= upto <= patches.len(),
        forall|k: int| 0 <= k < upto ==> !patch_covers(#[trigger] patches[k], pos),
    ensures
        patched_byte(body, patches, upto, pos) == body[pos],
    decreases upto,
{
    if upto > 0 {
        lemma_unpatched_byte(body, patches, upto - 1, pos);
    }
}

/// The body of a function as an output module emits it: the bytes of
/// `body` with the patches written over them, one after the other.
/// None where a patch reaches beyond the body.
pub fn apply_patches(body: &Vec<u8>, patches: &Vec<Patch>) -> (r: Option<Vec<u8>>)
    ensures
        match r {
            Some(out) => {
                &&& forall|k: int|
                    0 <= k < patches@.len() ==> patch_fits(body@.len(), #[trigger] patches@[k])
                &&& out@.len() == body@.len()
                &&& forall|pos: int|
                    0 <= pos < body@.len() ==> #[trigger] out@[pos] == patched_byte(
                        body@,
                        patches@,
                        patches@.len() as int,
                        pos,
                    )
            },
            None => exists|k: int|
                0 <= k < patches@.len() && !patch_fits(body@.len(), #[trigger] patches@[k]),
        },
{
    let len = body.len();
    let mut out: Vec<u8> = Vec::new();
    let mut i: usize = 0;
    while i < len
        invariant
            i <= len,
            len == body@.len(),
            out@.len() == i,
            forall|p: int| 0 <= p < i ==> #[trigger] out@[p] == body@[p],
        decreases len - i,
    {
        out.push(body[i]);
        i += 1;
    }
    let mut k: usize = 0;
    while k < patches.len()
        invariant
            k <= patches@.len(),
            len == body@.len(),
            out@.len() == len,
            forall|j: int| 0 <= j < k ==> patch_fits(len as nat, #[trigger] patches@[j]),
            forall|pos: int|
                0 <= pos < len ==> #[trigger] out@[pos] == patched_byte(
                    body@,
                    patches@,
                    k as int,
                    pos,
                ),
        decreases patches@.len() - k,
    {
        let patch = &patches[k];
        let end = match patch.offset.checked_add(patch.bytes.len()) {
            Some(end) => end,
            None => {
                return None;
            },
        };
        if end > len {
            return None;
        }
        let ghost before = out@;
        let mut j: usize = 0;
        while j < patch.bytes.len()
            invariant
                j <= patch.bytes@.len(),
                patch.offset + patch.bytes@.len() <= len,
                out@.len() == len,
                before.len() == len,
                forall|pos: int|
                    0 <= pos < len ==> #[trigger] out@[pos] == if patch.offset <= pos
                        < patch.offset + j {
                        patch.bytes@[pos - patch.offset]
                    } else {
                        before[pos]
                    },
            decreases patch.bytes@.len() - j,
        {
            out.set(patch.offset + j, patch.bytes[j]);
            j += 1;
        }
        k += 1;
    }
    Some(out)
}

/// Byte `k` of the five bytes that stand for `value` as an unsigned
/// LEB128 number of full width: seven bits of the value, the lowest
/// first, and in all but the last byte the bit that says that more
/// follows.
pub open spec fn leb_byte(value: u32, k: int) -> u8 {
    if k == 0 {
        (value & 0x7f | 0x80) as u8
    } else if k == 1 {
        ((value >> 7) & 0x7f | 0x80) as u8
    } else if k == 2 {
        ((value >> 14) & 0x7f | 0x80) as u8
    } else if k == 3 {
        ((value >> 21) & 0x7f | 0x80) as u8
    } else {
        ((value >> 28) & 0x7f) as u8
    }
}

/// The number that five bytes stand for as an unsigned LEB128 number:
/// seven bits from each byte, the lowest first.
pub open spec fn leb_value(bytes: Seq<u8>) -> int {
    (bytes[0] & 0x7f) as int + (bytes[1] & 0x7f) as int * 0x80 + (bytes[2] & 0x7f) as int * 0x4000
        + (bytes[3] & 0x7f) as int * 0x20_0000 + (bytes[4] & 0x7f) as int * 0x1000_0000
}

/// The five bytes that stand for an index in a function body: the index
/// as an unsigned LEB128 number of full width, so that it can be written
/// over the index that stood there.
pub fn encode_index(value: u32) -> (r: Vec<u8>)
    ensures
        r@.len() == 5,
        forall|k: int| 0 <= k < 5 ==> #[trigger] r@[k] == leb_byte(value, k),
        leb_value(r@) == value,
{
    let b0 = (value & 0x7f | 0x80) as u8;
    let b1 = ((value >> 7) & 0x7f | 0x80) as u8;
    let b2 = ((value >> 14) & 0x7f | 0x80) as u8;
    let b3 = ((value >> 21) & 0x7f | 0x80) as u8;
    let b4 = ((value >> 28) & 0x7f) as u8;
    let mut out: Vec<u8> = Vec::new();
    out.push(b0);
    out.push(b1);
    out.push(b2);
    out.push(b3);
    out.push(b4);
    proof {
        lemma_leb_roundtrip(value);
    }
    out
}

/// The five bytes of a number stand for that number.
pub proof fn lemma_leb_roundtrip(value: u32)
    ensures
        leb_value(Seq::new(5, |k: int| leb_byte(value, k))) == value,
        (leb_byte(value, 0) & 0x7f) as int + (leb_byte(value, 1) & 0x7f) as int * 0x80 + (leb_byte(
            value,
            2,
        ) & 0x7f) as int * 0x4000 + (leb_byte(value, 3) & 0x7f) as int * 0x20_0000 + (leb_byte(
            value,
            4,
        ) & 0x7f) as int * 0x1000_0000 == value,
{
    let v = value;
    let a0 = (v & 0x7f | 0x80) as u8;
    let a1 = ((v >> 7) & 0x7f | 0x80) as u8;
    let a2 = ((v >> 14) & 0x7f | 0x80) as u8;
    let a3 = ((v >> 21) & 0x7f | 0x80) as u8;
    let a4 = ((v >> 28) & 0x7f) as u8;
    assert((a0 & 0x7f) as u32 == v & 0x7f) by (bit_vector)
        requires
            a0 == (v & 0x7f | 0x80) as u8,
    ;
    assert((a1 & 0x7f) as u32 == (v >> 7) & 0x7f) by (bit_vector)
        requires
            a1 == ((v >> 7) & 0x7f | 0x80) as u8,
    ;
    assert((a2 & 0x7f) as u32 == (v >> 14) & 0x7f) by (bit_vector)
        requires
            a2 == ((v >> 14) & 0x7f | 0x80) as u8,
    ;
    assert((a3 & 0x7f) as u32 == (v >> 21) & 0x7f) by (bit_vector)
        requires
            a3 == ((v >> 21) & 0x7f | 0x80) as u8,
    ;
    assert((a4 & 0x7f) as u32 == (v >> 28) & 0x7f) by (bit_vector)
        requires
            a4 == ((v >> 28) & 0x7f) as u8,
    ;
    assert(v as u64 == (v & 0x7f) as u64 + ((v >> 7) & 0x7f) as u64 * 0x80
        + ((v >> 14) & 0x7f) as u64
        * 0x4000 + ((v >> 21) & 0x7f) as u64 * 0x20_0000 + ((v >> 28) & 0x7f) as u64
        * 0x1000_0000) by (bit_vector);
}

/// For each of the first `func_bound` functions the function that a call
/// of it is a call of: for the imported function of a split point the
/// exported function of the last such split point, else the function
/// itself.
pub fn call_targets(split_points: &Vec<SplitPoint>, func_bound: usize) -> (r: Vec<InputFuncId>)
    ensures
        r@.len() == func_bound,
        forall|f: InputFuncId|
            f < func_bound ==> #[trigger] r@[f as int] == rewritten_before(
                point_views(split_points@),
                split_points@.len() as int,
                f,
            ),
{
    let ghost points = point_views(split_points@);
    let mut targets: Vec<InputFuncId> = Vec::new();
    let mut f: usize = 0;
    while f < func_bound
        invariant
            f <= func_bound,
            targets@.len() == f,
            forall|g: int| 0 <= g < f ==> #[trigger] targets@[g] == g,
        decreases func_bound - f,
    {
        targets.push(f);
        f += 1;
    }
    let mut k: usize = 0;
    while k < split_points.len()
        invariant
            k <= split_points@.len(),
            points == point_views(split_points@),
            targets@.len() == func_bound,
            forall|f: InputFuncId|
                f < func_bound ==> #[trigger] targets@[f as int] == rewritten_before(
                    points,
                    k as int,
                    f,
                ),
        decreases split_points@.len() - k,
    {
        let point = &split_points[k];
        assert(points[k as int] == point@);
        if point.import_func < func_bound {
            targets.set(point.import_func, point.export_func);
        }
        k += 1;
    }
    targets
}

/// What is wrong with a reference to a function in a function body.
#[derive(Debug, Clone, Copy, PartialEq, Eq, Structural)]
pub enum EmitError {
    /// The reference is not five bytes long.
    BadWidth { relocation: usize },
    /// The relocation names no symbol, or one that is not in the symbol
    /// table, or one that is no function symbol.
    NoFunctionSymbol { relocation: usize },
    /// The function that is referred to has no index in the output
    /// module, or one that does not fit the reference.
    NoIndex { func: InputFuncId },
    /// The body of the function does not lie in the code.
    BodyOutOfRange { func: InputFuncId },
}

/// Whether relocation `i` is a reference to a function in the body
/// `body`: a relocation of the code section that holds the index of a
/// function and lies in the body.
pub open spec fn refers_from(module: &InputModule, body: ByteRange, i: int) -> bool {
    &&& 0 <= i < module.relocations@.len()
    &&& module.relocations@[i].section_id == CODE_SECTION_ID
    &&& module.relocations@[i].kind == RelocKind::FunctionIndexLeb
    &&& body.covers(module.relocations@[i].range)
}

/// The function that a relocation refers to, if its symbol is a function
/// symbol.
pub open spec fn referred_func(module: &InputModule, reloc: Relocation) -> Option<InputFuncId> {
    match reloc.symbol {
        Some(symbol) => if symbol < module.symbols.0@.len() {
            match module.symbols.0@[symbol as int] {
                SymbolInfo::Func { index, .. } => Some(index as usize),
                _ => None,
            }
        } else {
            None
        },
        None => None,
    }
}

/// The new index of the function that a call of `f` is a call of, if it
/// has one that fits a reference.
pub open spec fn new_index(
    targets: Seq<InputFuncId>,
    table: Seq<Option<usize>>,
    f: InputFuncId,
) -> Option<u32> {
    if f < targets.len() && targets[f as int] < table.len() {
        match table[targets[f as int] as int] {
            Some(index) => if index <= u32::MAX {
                Some(index as u32)
            } else {
                None
            },
            None => None,
        }
    } else {
        None
    }
}

/// What is to be written over the reference of relocation `i`, or what is
/// wrong with it.
pub open spec fn reference_patch(
    module: &InputModule,
    body: ByteRange,
    targets: Seq<InputFuncId>,
    table: Seq<Option<usize>>,
    i: int,
) -> Result<(int, u32), EmitError> {
    let reloc = module.relocations@[i];
    if reloc.range.end - reloc.range.start != 5 {
        Err(EmitError::BadWidth { relocation: i as usize })
    } else {
        match referred_func(module, reloc) {
            None => Err(EmitError::NoFunctionSymbol { relocation: i as usize }),
            Some(f) => match new_index(targets, table, f) {
                None => Err(EmitError::NoIndex { func: f }),
                Some(index) => Ok((reloc.range.start - body.start, index)),
            },
        }
    }
}

/// Whether `patch` writes the five bytes of `index` at `offset`.
pub open spec fn writes_index(patch: Patch, offset: int, index: u32) -> bool {
    &&& patch.offset == offset
    &&& patch.bytes@.len() == 5
    &&& forall|k: int| 0 <= k < 5 ==> #[trigger] patch.bytes@[k] == leb_byte(index, k)
}

/// Whether `patch` is the patch for the reference of relocation `i`.
pub open spec fn is_patch_for(
    module: &InputModule,
    body: ByteRange,
    targets: Seq<InputFuncId>,
    table: Seq<Option<usize>>,
    patch: Patch,
    i: int,
) -> bool {
    match reference_patch(module, body, targets, table, i) {
        Ok((offset, index)) => writes_index(patch, offset, index),
        Err(_) => false,
    }
}

/// The patches for the references to functions in the body `body` of a
/// function of an output module, and the relocation of each: for each
/// relocation of the code section that holds the index of a function and
/// lies in the body, in the order of the relocations, the five bytes of
/// the new index of the function that a call of the function referred to
/// is a call of. `targets` gives that function for each function, and
/// `table` the new index of each function.
///
/// Fails with the error of the first such relocation that has one.
pub fn reference_patches(
    module: &InputModule,
    body: ByteRange,
    targets: &Vec<InputFuncId>,
    table: &Vec<Option<usize>>,
) -> (r: Result<(Vec<Patch>, Vec<usize>), EmitError>)
    ensures
        match r {
            Ok((patches, sources)) => {
                &&& patches@.len() == sources@.len()
                &&& selects(
                    positions(sources@),
                    module.relocations@.len() as int,
                    |i: int| refers_from(module, body, i),
                )
                &&& forall|k: int|
                    0 <= k < patches@.len() ==> is_patch_for(
                        module,
                        body,
                        targets@,
                        table@,
                        #[trigger] patches@[k],
                        sources@[k] as int,
                    )
            },
            Err(err) => exists|i: int|
                {
                    &&& #[trigger] refers_from(module, body, i)
                    &&& reference_patch(module, body, targets@, table@, i) == Err::<
                        (int, u32),
                        EmitError,
                    >(err)
                    &&& forall|j: int|
                        0 <= j < i && #[trigger] refers_from(module, body, j) ==> reference_patch(
                            module,
                            body,
                            targets@,
                            table@,
                            j,
                        ) is Ok
                },
        },
{
    let ghost keep = |i: int| refers_from(module, body, i);
    let mut patches: Vec<Patch> = Vec::new();
    let mut sources: Vec<usize> = Vec::new();
    let mut i: usize = 0;
    while i < module.relocations.len()
        invariant
            i <= module.relocations@.len(),
            keep == |i: int| refers_from(module, body, i),
            patches@.len() == sources@.len(),
            selects(positions(sources@), i as int, keep),
            forall|k: int|
                0 <= k < patches@.len() ==> is_patch_for(
                    module,
                    body,
                    targets@,
                    table@,
                    #[trigger] patches@[k],
                    sources@[k] as int,
                ),
            forall|j: int|
                0 <= j < i && #[trigger] refers_from(module, body, j) ==> reference_patch(
                    module,
                    body,
                    targets@,
                    table@,
                    j,
                ) is Ok,
        decreases module.relocations@.len() - i,
    {
        let reloc = &module.relocations[i];
        let ghost ids = positions(sources@);
        let ghost before = patches@;
        let ghost old_sources = sources@;
        proof {
            lemma_selects_next(ids, i as int, keep);
        }
        let refers = reloc.section_id == CODE_SECTION_ID && match reloc.kind {
            RelocKind::FunctionIndexLeb => true,
            _ => false,
        } && body.contains_range(&reloc.range);
        if refers {
            assert(refers_from(module, body, i as int));
            if reloc.range.end < reloc.range.start || reloc.range.end - reloc.range.start != 5 {
                return Err(EmitError::BadWidth { relocation: i });
            }
            let func = match func_of(module, reloc) {
                Some(func) => func,
                None => {
                    return Err(EmitError::NoFunctionSymbol { relocation: i });
                },
            };
            let index = match index_of(targets, table, func) {
                Some(index) => index,
                None => {
                    return Err(EmitError::NoIndex { func });
                },
            };
            let patch = Patch {
                offset: reloc.range.start - body.start,
                bytes: encode_index(index),
            };
            proof {
                assert(reference_patch(module, body, targets@, table@, i as int) == Ok::<
                    (int, u32),
                    EmitError,
                >((reloc.range.start - body.start, index)));
                assert(writes_index(patch, reloc.range.start - body.start, index));
                assert(is_patch_for(module, body, targets@, table@, patch, i as int));
            }
            patches.push(patch);
            sources.push(i);
            proof {
                assert(positions(sources@) =~= ids.push(i as int));
                assert forall|k: int| 0 <= k < patches@.len() implies is_patch_for(
                    module,
                    body,
                    targets@,
                    table@,
                    #[trigger] patches@[k],
                    sources@[k] as int,
                ) by {
                    if k < before.len() {
                        assert(patches@[k] == before[k]);
                        assert(sources@[k] == old_sources[k]);
                    }
                }
            }
        } else {
            assert(!refers_from(module, body, i as int));
        }
        i += 1;
    }
    Ok((patches, sources))
}

/// The function that `reloc` refers to, if its symbol is a function
/// symbol.
fn func_of(module: &InputModule, reloc: &Relocation) -> (r: Option<InputFuncId>)
    ensures
        r == referred_func(module, *reloc),
{
    match reloc.symbol {
        Some(symbol) => {
            if symbol < module.symbols.len() {
                match &module.symbols.0[symbol] {
                    SymbolInfo::Func { index, .. } => Some(*index as usize),
                    _ => None,
                }
            } else {
                None
            }
        },
        None => None,
    }
}

/// The new index of the function that a call of `f` is a call of.
fn index_of(targets: &Vec<InputFuncId>, table: &Vec<Option<usize>>, f: InputFuncId) -> (r: Option<
    u32,
>)
    ensures
        r == new_index(targets@, table@, f),
{
    if f >= targets.len() {
        return None;
    }
    let target = targets[f];
    if target >= table.len() {
        return None;
    }
    match table[target] {
        Some(index) => {
            if index <= u32::MAX as usize {
                Some(index as u32)
            } else {
                None
            }
        },
        None => None,
    }
}

} // verus!
