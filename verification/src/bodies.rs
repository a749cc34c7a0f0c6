//! The function bodies of an output module: the bytes of the input with
//! the new indices of the functions written over the references to them.

use crate::emit::{
    apply_patches, call_targets, function_imports, function_order, imported_funcs, index_table,
    is_patch_for, last_position, leb_byte, lists_imports, patch_fits, patched_byte,
    new_index, reference_patch, reference_patches, referred_func, refers_from, EmitError,
    FunctionImport, Patch,
};
use crate::imports::rewritten_before;
use crate::layout::SplitProgramInfo;
use crate::nodes::{DepNode, InputFuncId};
use crate::read::{ByteRange, InputModule};
use crate::seqs::{gap_start, lemma_selects_gap, positions, selects};
use crate::split_point::{point_views, SplitPoint, SplitPointView};
use vstd::prelude::*;

verus! {

/// How an output module numbers functions: the functions that it imports,
/// the functions that it holds, both in the order of their new indices,
/// and for each function of the input the function that a call of it is a
/// call of and its new index.
pub struct FunctionLayout {
    pub imports: Vec<FunctionImport>,
    pub locals: Vec<InputFuncId>,
    pub order: Vec<InputFuncId>,
    pub targets: Vec<InputFuncId>,
    pub table: Vec<Option<usize>>,
}

/// Whether `layout` is how output module `output` of `info` numbers
/// functions, with the split points `points`.
pub open spec fn is_layout_of(
    info: &SplitProgramInfo,
    points: Seq<SplitPointView>,
    output: int,
    layout: FunctionLayout,
) -> bool {
    let out = info.output_modules@[output];
    let bound = out.1.included_symbols.func_bound();
    &&& lists_imports(
        out,
        info.symbol_output_module@,
        info.output_modules@.len(),
        layout.imports@,
    )
    &&& selects(
        positions(layout.locals@),
        bound as int,
        |f: int| out.1.included_symbols@.contains(DepNode::Function(f as usize)),
    )
    &&& layout.order@ == imported_funcs(layout.imports@) + layout.locals@
    &&& layout.targets@.len() == bound
    &&& forall|f: InputFuncId|
        f < bound ==> #[trigger] layout.targets@[f as int] == rewritten_before(
            points,
            points.len() as int,
            f,
        )
    &&& layout.table@.len() == bound
    &&& forall|f: InputFuncId|
        f < bound ==> #[trigger] layout.table@[f as int] == last_position(
            layout.order@,
            f,
            layout.order@.len() as int,
        )
}

/// How output module `output` numbers functions: its imports first, then
/// the functions that it holds in ascending order.
pub fn function_layout(
    info: &SplitProgramInfo,
    split_points: &Vec<SplitPoint>,
    output: usize,
) -> (r: FunctionLayout)
    requires
        output < info.output_modules@.len(),
    ensures
        is_layout_of(info, point_views(split_points@), output as int, r),
{
    let held = &info.output_modules[output].1.included_symbols;
    let bound = held.func_count();
    let imports = function_imports(info, output);
    let locals = held.functions();
    let order = function_order(&imports, &locals);
    let targets = call_targets(split_points, bound);
    let table = index_table(&order, bound);
    FunctionLayout { imports, locals, order, targets, table }
}

/// The body of function `f` in the code of the input, if it has one.
pub open spec fn body_range(module: &InputModule, f: InputFuncId) -> Option<ByteRange> {
    let imported = module.imported_func_total();
    if imported <= f < imported + module.defined_funcs@.len() {
        Some(module.defined_funcs@[f - imported])
    } else {
        None
    }
}

/// The last of the first `upto` relocations that is a reference to a
/// function from the body `body` and covers byte `at` of the code.
pub open spec fn covering_reference(
    module: &InputModule,
    body: ByteRange,
    at: int,
    upto: int,
) -> Option<int>
    decreases upto,
{
    if upto <= 0 {
        None
    } else if upto <= module.relocations@.len() && refers_from(module, body, upto - 1)
        && module.relocations@[upto - 1].range.start <= at < module.relocations@[upto
        - 1].range.end {
        Some(upto - 1)
    } else {
        covering_reference(module, body, at, upto - 1)
    }
}

/// The byte of an emitted body that stands for byte `at` of the code,
/// where the last reference that covers it is `covering`: a byte of the
/// new index of the function that the reference is then to, or, where no
/// reference covers it, the byte of the code.
pub open spec fn byte_for(
    module: &InputModule,
    code: Seq<u8>,
    body: ByteRange,
    targets: Seq<InputFuncId>,
    table: Seq<Option<usize>>,
    at: int,
    covering: Option<int>,
) -> u8 {
    match covering {
        Some(i) => match reference_patch(module, body, targets, table, i) {
            Ok((offset, index)) => leb_byte(index, at - body.start - offset),
            Err(_) => code[at],
        },
        None => code[at],
    }
}

/// Byte `pos` of the body `body` as an output module emits it.
pub open spec fn emitted_byte(
    module: &InputModule,
    code: Seq<u8>,
    body: ByteRange,
    targets: Seq<InputFuncId>,
    table: Seq<Option<usize>>,
    pos: int,
) -> u8 {
    let at = body.start + pos;
    byte_for(
        module,
        code,
        body,
        targets,
        table,
        at,
        covering_reference(module, body, at, module.relocations@.len() as int),
    )
}

/// Whether each reference to a function from the body `body` can be
/// rewritten.
pub open spec fn references_fine(
    module: &InputModule,
    body: ByteRange,
    targets: Seq<InputFuncId>,
    table: Seq<Option<usize>>,
) -> bool {
    forall|i: int| #[trigger]
        refers_from(module, body, i) ==> reference_patch(module, body, targets, table, i) is Ok
}

/// Whether the body `body` can be emitted from a code of `code_len`
/// bytes.
pub open spec fn body_emits(
    module: &InputModule,
    code_len: nat,
    body: ByteRange,
    targets: Seq<InputFuncId>,
    table: Seq<Option<usize>>,
) -> bool {
    &&& body.start <= body.end <= code_len
    &&& references_fine(module, body, targets, table)
}

/// Whether `err` is what is wrong with the body `body` of function
/// `func`: it does not lie in the code, or else `err` is the error of its
/// first reference that cannot be rewritten.
pub open spec fn body_fails(
    module: &InputModule,
    code_len: nat,
    func: InputFuncId,
    body: ByteRange,
    targets: Seq<InputFuncId>,
    table: Seq<Option<usize>>,
    err: EmitError,
) -> bool {
    if body.start <= body.end <= code_len {
        exists|i: int|
            {
                &&& #[trigger] refers_from(module, body, i)
                &&& reference_patch(module, body, targets, table, i) == Err::<
                    (int, u32),
                    EmitError,
                >(err)
                &&& forall|j: int|
                    0 <= j < i && #[trigger] refers_from(module, body, j) ==> reference_patch(
                        module,
                        body,
                        targets,
                        table,
                        j,
                    ) is Ok
            }
    } else {
        err == (EmitError::BodyOutOfRange { func })
    }
}

/// Whether `out` is the body `body` as an output module emits it.
pub open spec fn is_emitted(
    module: &InputModule,
    code: Seq<u8>,
    body: ByteRange,
    targets: Seq<InputFuncId>,
    table: Seq<Option<usize>>,
    out: Seq<u8>,
) -> bool {
    &&& out.len() == body.end - body.start
    &&& forall|pos: int|
        0 <= pos < out.len() ==> #[trigger] out[pos] == emitted_byte(
            module,
            code,
            body,
            targets,
            table,
            pos,
        )
}

/// Relocations that are no references from the body do not change which
/// reference covers a byte.
pub proof fn lemma_covering_skips(
    module: &InputModule,
    body: ByteRange,
    at: int,
    from: int,
    upto: int,
)
    requires
        0 <= from <= upto,
        forall|i: int| from <= i < upto ==> !refers_from(module, body, i),
    ensures
        covering_reference(module, body, at, upto) == covering_reference(module, body, at, from),
    decreases upto - from,
{
    if from < upto {
        lemma_covering_skips(module, body, at, from, upto - 1);
    }
}

/// After the first `k` patches a byte of the body is what stands for it
/// with the last of the references of those patches that covers it.
pub proof fn lemma_patched_is_emitted(
    module: &InputModule,
    code: Seq<u8>,
    body: ByteRange,
    targets: Seq<InputFuncId>,
    table: Seq<Option<usize>>,
    bytes: Seq<u8>,
    patches: Seq<Patch>,
    sources: Seq<usize>,
    k: int,
    pos: int,
)
    requires
        body.start <= body.end <= code.len(),
        bytes.len() == body.end - body.start,
        forall|p: int| 0 <= p < bytes.len() ==> bytes[p] == code[body.start + p],
        patches.len() == sources.len(),
        selects(
            positions(sources),
            module.relocations@.len() as int,
            |i: int| refers_from(module, body, i),
        ),
        forall|j: int|
            0 <= j < patches.len() ==> is_patch_for(
                module,
                body,
                targets,
                table,
                #[trigger] patches[j],
                sources[j] as int,
            ),
        0 <= k <= patches.len(),
        0 <= pos < bytes.len(),
    ensures
        patched_byte(bytes, patches, k, pos) == byte_for(
            module,
            code,
            body,
            targets,
            table,
            body.start + pos,
            covering_reference(module, body, body.start + pos, gap_start(positions(sources), k)),
        ),
    decreases k,
{
    let ids = positions(sources);
    let keep = |i: int| refers_from(module, body, i);
    let at = body.start + pos;
    if k > 0 {
        let i = ids[k - 1];
        let patch = patches[k - 1];
        assert(i == sources[k - 1]);
        assert(keep(i));
        assert(is_patch_for(module, body, targets, table, patch, i));
        lemma_patched_is_emitted(
            module,
            code,
            body,
            targets,
            table,
            bytes,
            patches,
            sources,
            k - 1,
            pos,
        );
        assert forall|j: int| gap_start(ids, k - 1) <= j < i implies !refers_from(
            module,
            body,
            j,
        ) by {
            lemma_selects_gap(ids, module.relocations@.len() as int, keep, k - 1, j);
        }
        if k > 1 {
            assert(ids[k - 2] < ids[k - 1]);
        }
        lemma_covering_skips(module, body, at, gap_start(ids, k - 1), i);
        assert(gap_start(ids, k) == i + 1);
    }
}

/// The body `body` of function `func` as an output module emits it: the
/// bytes of the code, with the five bytes of the new index of the
/// function that is then referred to written over each reference to a
/// function.
///
/// Fails where the body does not lie in the code, and with the error of
/// the first reference that cannot be rewritten.
pub fn emit_body(
    module: &InputModule,
    code: &Vec<u8>,
    func: InputFuncId,
    body: ByteRange,
    targets: &Vec<InputFuncId>,
    table: &Vec<Option<usize>>,
) -> (r: Result<Vec<u8>, EmitError>)
    ensures
        match r {
            Ok(out) => {
                &&& body_emits(module, code@.len(), body, targets@, table@)
                &&& is_emitted(module, code@, body, targets@, table@, out@)
            },
            Err(err) => body_fails(module, code@.len(), func, body, targets@, table@, err),
        },
{
    if body.start > body.end || body.end > code.len() {
        return Err(EmitError::BodyOutOfRange { func });
    }
    let mut bytes: Vec<u8> = Vec::new();
    let mut p: usize = body.start;
    while p < body.end
        invariant
            body.start <= p <= body.end <= code@.len(),
            bytes@.len() == p - body.start,
            forall|q: int| 0 <= q < bytes@.len() ==> bytes@[q] == code@[body.start + q],
        decreases body.end - p,
    {
        bytes.push(code[p]);
        p += 1;
    }
    let (patches, sources) = match reference_patches(module, body, targets, table) {
        Ok(found) => found,
        Err(err) => {
            return Err(err);
        },
    };
    let ghost ids = positions(sources@);
    let ghost keep = |i: int| refers_from(module, body, i);
    let ghost count = module.relocations@.len() as int;
    proof {
        assert forall|i: int| #[trigger] refers_from(module, body, i) implies reference_patch(
            module,
            body,
            targets@,
            table@,
            i,
        ) is Ok by {
            assert(keep(i));
            assert(ids.contains(i));
            let k = choose|k: int| 0 <= k < ids.len() && ids[k] == i;
            assert(is_patch_for(module, body, targets@, table@, patches@[k], sources@[k] as int));
        }
        assert forall|k: int| 0 <= k < patches@.len() implies patch_fits(
            bytes@.len(),
            #[trigger] patches@[k],
        ) by {
            assert(is_patch_for(module, body, targets@, table@, patches@[k], sources@[k] as int));
            assert(keep(ids[k]));
        }
    }
    match apply_patches(&bytes, &patches) {
        Some(out) => {
            proof {
                assert forall|pos: int| 0 <= pos < out@.len() implies #[trigger] out@[pos]
                    == emitted_byte(module, code@, body, targets@, table@, pos) by {
                    let at = body.start + pos;
                    lemma_patched_is_emitted(
                        module,
                        code@,
                        body,
                        targets@,
                        table@,
                        bytes@,
                        patches@,
                        sources@,
                        patches@.len() as int,
                        pos,
                    );
                    let from = gap_start(ids, ids.len() as int);
                    assert forall|j: int| from <= j < count implies !refers_from(
                        module,
                        body,
                        j,
                    ) by {
                        lemma_selects_gap(ids, count, keep, ids.len() as int, j);
                    }
                    if ids.len() > 0 {
                        assert(0 <= ids[ids.len() - 1] < count);
                    }
                    lemma_covering_skips(module, body, at, from, count);
                }
            }
            Ok(out)
        },
        None => {
            // Each patch lies in the body, so this is never reached.
            proof {
                assert(false);
            }
            Err(EmitError::BodyOutOfRange { func })
        },
    }
}

/// Whether `emitted` is what an output module emits for function `f`: its
/// body, or nothing for a function without one.
pub open spec fn is_emitted_for(
    module: &InputModule,
    code: Seq<u8>,
    layout: FunctionLayout,
    f: InputFuncId,
    emitted: Option<Vec<u8>>,
) -> bool {
    match body_range(module, f) {
        Some(body) => {
            &&& body_emits(module, code.len(), body, layout.targets@, layout.table@)
            &&& emitted matches Some(out) && is_emitted(
                module,
                code,
                body,
                layout.targets@,
                layout.table@,
                out@,
            )
        },
        None => emitted is None,
    }
}

/// Whether `bodies` holds what an output module emits for the functions
/// that it holds, in the order of `layout.locals`.
pub open spec fn are_bodies_of(
    module: &InputModule,
    code: Seq<u8>,
    layout: FunctionLayout,
    bodies: Seq<Option<Vec<u8>>>,
) -> bool {
    &&& bodies.len() == layout.locals@.len()
    &&& forall|k: int|
        0 <= k < bodies.len() ==> is_emitted_for(
            module,
            code,
            layout,
            layout.locals@[k],
            #[trigger] bodies[k],
        )
}

/// The body of function `f`, if it has one.
fn body_of(module: &InputModule, f: InputFuncId) -> (r: Option<ByteRange>)
    ensures
        r == body_range(module, f),
{
    let imported = module.imported_func_count();
    if f < imported {
        return None;
    }
    let defined = f - imported;
    if defined < module.defined_funcs.len() {
        Some(module.defined_funcs[defined])
    } else {
        None
    }
}

/// The bodies of the functions that an output module holds, in the order
/// of `layout.locals`: each body as `emit_body` gives it, and nothing for
/// a function without a body.
///
/// Fails with what is wrong with the first function whose body cannot be
/// emitted.
pub fn emit_bodies(module: &InputModule, code: &Vec<u8>, layout: &FunctionLayout) -> (r: Result<
    Vec<Option<Vec<u8>>>,
    EmitError,
>)
    ensures
        match r {
            Ok(bodies) => are_bodies_of(module, code@, *layout, bodies@),
            Err(err) => exists|k: int|
                {
                    &&& 0 <= k < layout.locals@.len()
                    &&& body_range(module, #[trigger] layout.locals@[k]) matches Some(body)
                        && body_fails(
                        module,
                        code@.len(),
                        layout.locals@[k],
                        body,
                        layout.targets@,
                        layout.table@,
                        err,
                    )
                    &&& forall|j: int|
                        0 <= j < k ==> (body_range(
                            module,
                            #[trigger] layout.locals@[j],
                        ) matches Some(earlier) ==> body_emits(
                            module,
                            code@.len(),
                            earlier,
                            layout.targets@,
                            layout.table@,
                        ))
                },
        },
{
    let mut bodies: Vec<Option<Vec<u8>>> = Vec::new();
    let mut k: usize = 0;
    while k < layout.locals.len()
        invariant
            k <= layout.locals@.len(),
            bodies@.len() == k,
            forall|j: int|
                0 <= j < k ==> is_emitted_for(
                    module,
                    code@,
                    *layout,
                    layout.locals@[j],
                    #[trigger] bodies@[j],
                ),
        decreases layout.locals@.len() - k,
    {
        let f = layout.locals[k];
        let ghost before = bodies@;
        let emitted = match body_of(module, f) {
            Some(body) => match emit_body(module, code, f, body, &layout.targets, &layout.table) {
                Ok(out) => Some(out),
                Err(err) => {
                    proof {
                        assert forall|j: int| 0 <= j < k implies (body_range(
                            module,
                            #[trigger] layout.locals@[j],
                        ) matches Some(earlier) ==> body_emits(
                            module,
                            code@.len(),
                            earlier,
                            layout.targets@,
                            layout.table@,
                        )) by {
                            assert(is_emitted_for(
                                module,
                                code@,
                                *layout,
                                layout.locals@[j],
                                bodies@[j],
                            ));
                        }
                    }
                    return Err(err);
                },
            },
            None => None,
        };
        bodies.push(emitted);
        proof {
            assert forall|j: int| 0 <= j < k + 1 implies is_emitted_for(
                module,
                code@,
                *layout,
                layout.locals@[j],
                #[trigger] bodies@[j],
            ) by {
                if j < k {
                    assert(bodies@[j] == before[j]);
                }
            }
        }
        k += 1;
    }
    Ok(bodies)
}

/// Byte preservation: a byte of a body that no reference to a function
/// covers is emitted as it stands in the code.
pub proof fn lemma_byte_preserved(
    module: &InputModule,
    code: Seq<u8>,
    body: ByteRange,
    targets: Seq<InputFuncId>,
    table: Seq<Option<usize>>,
    pos: int,
)
    requires
        forall|i: int| #[trigger]
            refers_from(module, body, i) ==> !(module.relocations@[i].range.start <= body.start
                + pos < module.relocations@[i].range.end),
    ensures
        emitted_byte(module, code, body, targets, table, pos) == code[body.start + pos],
{
    lemma_none_covering(module, body, body.start + pos, module.relocations@.len() as int);
}

/// Where no reference covers a byte, none is the last that covers it.
pub proof fn lemma_none_covering(module: &InputModule, body: ByteRange, at: int, upto: int)
    requires
        forall|i: int| #[trigger]
            refers_from(module, body, i) ==> !(module.relocations@[i].range.start <= at
                < module.relocations@[i].range.end),
    ensures
        covering_reference(module, body, at, upto) is None,
    decreases upto,
{
    if upto > 0 {
        lemma_none_covering(module, body, at, upto - 1);
    }
}

/// The last reference that covers a byte, where no later one does.
pub proof fn lemma_last_covering(
    module: &InputModule,
    body: ByteRange,
    at: int,
    i: int,
    upto: int,
)
    requires
        refers_from(module, body, i),
        module.relocations@[i].range.start <= at < module.relocations@[i].range.end,
        i < upto <= module.relocations@.len(),
        forall|j: int|
            i < j && #[trigger] refers_from(module, body, j) ==> !(
            module.relocations@[j].range.start <= at < module.relocations@[j].range.end),
    ensures
        covering_reference(module, body, at, upto) == Some(i),
    decreases upto,
{
    if upto > i + 1 {
        lemma_last_covering(module, body, at, i, upto - 1);
    }
}

/// Reference rewriting: the five bytes of a reference to a function, which
/// no later reference covers, are emitted as the bytes of the new index
/// of the function that a call of the function referred to is a call of.
pub proof fn lemma_reference_rewritten(
    module: &InputModule,
    code: Seq<u8>,
    body: ByteRange,
    targets: Seq<InputFuncId>,
    table: Seq<Option<usize>>,
    i: int,
    k: int,
)
    requires
        refers_from(module, body, i),
        reference_patch(module, body, targets, table, i) is Ok,
        0 <= k < 5,
        forall|j: int|
            i < j && #[trigger] refers_from(module, body, j) ==> (module.relocations@[j].range.end
                <= module.relocations@[i].range.start || module.relocations@[i].range.end
                <= module.relocations@[j].range.start),
    ensures
        emitted_byte(
            module,
            code,
            body,
            targets,
            table,
            module.relocations@[i].range.start - body.start + k,
        ) == leb_byte(reference_patch(module, body, targets, table, i)->Ok_0.1, k),
{
    let at = module.relocations@[i].range.start + k;
    lemma_last_covering(module, body, at, i, module.relocations@.len() as int);
}

/// The function at the position that is found for `f` is `f`.
pub proof fn lemma_last_position(order: Seq<InputFuncId>, f: InputFuncId, upto: int)
    requires
        order.len() <= usize::MAX,
    ensures
        last_position(order, f, upto) matches Some(p) ==> p < order.len() && order[p as int] == f,
    decreases upto,
{
    if upto > 0 {
        lemma_last_position(order, f, upto - 1);
    }
}

/// The place of a function that an output module holds among the
/// functions that it holds.
pub proof fn lemma_held_is_local(
    info: &SplitProgramInfo,
    points: Seq<SplitPointView>,
    output: int,
    layout: FunctionLayout,
    f: InputFuncId,
) -> (k: int)
    requires
        0 <= output < info.output_modules@.len(),
        is_layout_of(info, points, output, layout),
        info.output_modules@[output].1.included_symbols@.contains(DepNode::Function(f)),
    ensures
        0 <= k < layout.locals@.len(),
        layout.locals@[k] == f,
{
    let held = |g: int|
        info.output_modules@[output].1.included_symbols@.contains(DepNode::Function(g as usize));
    info.output_modules@[output].1.included_symbols.lemma_members_spanned();
    assert(held(f as int));
    assert(positions(layout.locals@).contains(f as int));
    let k = choose|k: int| 0 <= k < layout.locals@.len() && positions(layout.locals@)[k] == f as int;
    k
}

/// Byte preservation: in the body that an output module of a partition
/// emits for a function `f` that it holds, a byte that no reference to a
/// function covers is the byte of the input.
pub proof fn lemma_held_body_kept(
    info: &SplitProgramInfo,
    points: Seq<SplitPointView>,
    output: int,
    layout: FunctionLayout,
    module: &InputModule,
    code: Seq<u8>,
    bodies: Seq<Option<Vec<u8>>>,
    f: InputFuncId,
    pos: int,
) -> (k: int)
    requires
        0 <= output < info.output_modules@.len(),
        is_layout_of(info, points, output, layout),
        are_bodies_of(module, code, layout, bodies),
        info.output_modules@[output].1.included_symbols@.contains(DepNode::Function(f)),
        body_range(module, f) is Some,
        0 <= pos < body_range(module, f)->0.end - body_range(module, f)->0.start,
        forall|i: int| #[trigger]
            refers_from(module, body_range(module, f)->0, i) ==> !(
            module.relocations@[i].range.start <= body_range(module, f)->0.start + pos
                < module.relocations@[i].range.end),
    ensures
        0 <= k < bodies.len(),
        layout.locals@[k] == f,
        bodies[k] matches Some(out) && out@[pos] == code[body_range(module, f)->0.start + pos],
{
    let k = lemma_held_is_local(info, points, output, layout, f);
    let body = body_range(module, f)->0;
    assert(is_emitted_for(module, code, layout, layout.locals@[k], bodies[k]));
    lemma_byte_preserved(module, code, body, layout.targets@, layout.table@, pos);
    k
}

/// Reference rewriting: in the body that an output module of a partition
/// emits for a function `f` that it holds, the five bytes of a reference
/// to a function, which no later reference covers, are those of the new
/// index of the function that a call of the function referred to is a
/// call of: its place among the functions of the module.
pub proof fn lemma_held_reference_rewritten(
    info: &SplitProgramInfo,
    points: Seq<SplitPointView>,
    output: int,
    layout: FunctionLayout,
    module: &InputModule,
    code: Seq<u8>,
    bodies: Seq<Option<Vec<u8>>>,
    f: InputFuncId,
    i: int,
) -> (r: (int, u32))
    requires
        0 <= output < info.output_modules@.len(),
        is_layout_of(info, points, output, layout),
        are_bodies_of(module, code, layout, bodies),
        info.output_modules@[output].1.included_symbols@.contains(DepNode::Function(f)),
        body_range(module, f) is Some,
        refers_from(module, body_range(module, f)->0, i),
        forall|j: int|
            i < j && #[trigger] refers_from(module, body_range(module, f)->0, j) ==> (
            module.relocations@[j].range.end <= module.relocations@[i].range.start
                || module.relocations@[i].range.end <= module.relocations@[j].range.start),
    ensures
        0 <= r.0 < bodies.len(),
        layout.locals@[r.0] == f,
        referred_func(module, module.relocations@[i]) is Some,
        r.1 < layout.order@.len(),
        layout.order@[r.1 as int] == rewritten_before(
            points,
            points.len() as int,
            referred_func(module, module.relocations@[i])->0,
        ),
        bodies[r.0] matches Some(out) && forall|b: int|
            0 <= b < 5 ==> #[trigger] out@[module.relocations@[i].range.start - body_range(
                module,
                f,
            )->0.start + b] == leb_byte(r.1, b),
{
    let k = lemma_held_is_local(info, points, output, layout, f);
    let body = body_range(module, f)->0;
    let targets = layout.targets@;
    let table = layout.table@;
    let site = module.relocations@[i].range.start - body.start;
    assert(is_emitted_for(module, code, layout, layout.locals@[k], bodies[k]));
    assert(reference_patch(module, body, targets, table, i) is Ok);
    let g = referred_func(module, module.relocations@[i])->0;
    let index = new_index(targets, table, g)->0;
    assert(reference_patch(module, body, targets, table, i) == Ok::<(int, u32), EmitError>(
        (site, index),
    ));
    assert(layout.order.len() == layout.order@.len());
    lemma_last_position(layout.order@, targets[g as int], layout.order@.len() as int);
    let out = bodies[k]->0;
    assert forall|b: int| 0 <= b < 5 implies #[trigger] out@[site + b] == leb_byte(index, b) by {
        lemma_reference_rewritten(module, code, body, targets, table, i, b);
    }
    (k, index)
}

} // verus!
