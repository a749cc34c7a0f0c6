//! Split points: the import and export pairs that mark where code may be
//! loaded later.

use crate::nodes::{InputFuncId, SymbolIndex};
use crate::pattern::{
    capture_groups, captures_view, groups_view, pattern_captures, pattern_compiles,
};
use crate::read::{Export, ExportId, ExternalKind, ImportId, InputModule, SymbolInfo};
use crate::seqs::{gap_end, lemma_selects_gap, lemma_selects_next, lemma_selects_widen, selects};
use crate::text::{has_prefix, strip_prefix};
use vstd::prelude::*;

verus! {

/// A split module and the symbol of the function that loads it.
#[derive(Debug, PartialEq, Eq, Clone)]
pub struct SplitModule {
    pub module_name: String,
    pub load_func: SymbolIndex,
}

/// An import and an export of the input that belong together: calls of the
/// imported function `import_func` stand for calls of the exported function
/// `export_func`, which is the code to load later.
#[derive(Debug, PartialEq, Eq, Clone)]
pub struct SplitPoint {
    pub module_name: String,
    pub import: ImportId,
    pub import_func: InputFuncId,
    pub export: ExportId,
    pub export_func: InputFuncId,
}

/// A split point with its name as a sequence of characters.
pub struct SplitPointView {
    pub module_name: Seq<char>,
    pub import: ImportId,
    pub import_func: InputFuncId,
    pub export: ExportId,
    pub export_func: InputFuncId,
}

impl View for SplitPoint {
    type V = SplitPointView;

    open spec fn view(&self) -> SplitPointView {
        SplitPointView {
            module_name: self.module_name@,
            import: self.import,
            import_func: self.import_func,
            export: self.export,
            export_func: self.export_func,
        }
    }
}

impl SplitPoint {
    /// A copy of this split point.
    pub fn duplicate(&self) -> (r: SplitPoint)
        ensures
            r@ == self@,
    {
        SplitPoint {
            module_name: self.module_name.clone(),
            import: self.import,
            import_func: self.import_func,
            export: self.export,
            export_func: self.export_func,
        }
    }
}

/// The views of a list of split points.
pub open spec fn point_views(points: Seq<SplitPoint>) -> Seq<SplitPointView> {
    Seq::new(points.len(), |i: int| points[i]@)
}

/// The prefix of the name of a symbol that loads a split module.
pub open spec fn load_prefix() -> Seq<char> {
    "__wasm_split_load_"@
}

/// The split module that the symbol loads, if it is a named function symbol
/// whose name begins with the load prefix: the rest of the name.
pub open spec fn load_module_name(symbol: SymbolInfo) -> Option<Seq<char>> {
    match symbol {
        SymbolInfo::Func { name: Some(name), .. } => if has_prefix(name@, load_prefix()) {
            Some(name@.skip(load_prefix().len() as int))
        } else {
            None
        },
        _ => None,
    }
}

/// Whether symbol `i` is the last one that loads its split module.
pub open spec fn is_last_loader(symbols: Seq<SymbolInfo>, i: int) -> bool {
    &&& 0 <= i < symbols.len()
    &&& load_module_name(symbols[i]) is Some
    &&& forall|j: int|
        i < j < symbols.len() ==> load_module_name(#[trigger] symbols[j]) != load_module_name(
            symbols[i],
        )
}

/// The split module that `symbol` loads, if any.
fn load_name_of(symbol: &SymbolInfo) -> (r: Option<String>)
    ensures
        r is Some <==> load_module_name(*symbol) is Some,
        r matches Some(name) ==> Some(name@) == load_module_name(*symbol),
{
    match symbol {
        SymbolInfo::Func { name: Some(name), .. } => strip_prefix(
            name.as_str(),
            "__wasm_split_load_",
        ),
        _ => None,
    }
}

/// The split modules that the symbol table declares: one for each function
/// symbol whose name begins with `__wasm_split_load_`, named by the rest of
/// that name, in the order of the symbols. Where several symbols load the
/// same module, the last of them stands for it.
pub fn get_split_modules(module: &InputModule) -> (r: Vec<SplitModule>)
    ensures
        selects(
            Seq::new(r@.len(), |k: int| r@[k].load_func as int),
            module.symbols.0@.len() as int,
            |i: int| is_last_loader(module.symbols.0@, i),
        ),
        forall|k: int|
            0 <= k < r@.len() ==> Some((#[trigger] r@[k]).module_name@) == load_module_name(
                module.symbols.0@[r@[k].load_func as int],
            ),
{
    let ghost symbols = module.symbols.0@;
    let ghost is_loader = |i: int| 0 <= i < symbols.len() && load_module_name(symbols[i]) is Some;
    let mut found: Vec<SplitModule> = Vec::new();
    let mut i: usize = 0;
    while i < module.symbols.len()
        invariant
            i <= symbols.len(),
            symbols == module.symbols.0@,
            is_loader == |i: int| 0 <= i < symbols.len() && load_module_name(symbols[i]) is Some,
            selects(
                Seq::new(found@.len(), |k: int| found@[k].load_func as int),
                i as int,
                is_loader,
            ),
            forall|k: int|
                0 <= k < found@.len() ==> Some((#[trigger] found@[k]).module_name@)
                    == load_module_name(symbols[found@[k].load_func as int]),
        decreases symbols.len() - i,
    {
        let ghost ids = Seq::new(found@.len(), |k: int| found@[k].load_func as int);
        proof {
            lemma_selects_next(ids, i as int, is_loader);
        }
        match load_name_of(&module.symbols.0[i]) {
            Some(name) => {
                found.push(SplitModule { module_name: name, load_func: i });
                assert(Seq::new(found@.len(), |k: int| found@[k].load_func as int) =~= ids.push(
                    i as int,
                ));
            },
            None => {},
        }
        i += 1;
    }
    let ghost all_ids = Seq::new(found@.len(), |k: int| found@[k].load_func as int);
    let ghost keep = |i: int| is_last_loader(symbols, i);
    let ghost total = symbols.len() as int;
    let mut kept: Vec<SplitModule> = Vec::new();
    let mut k: usize = 0;
    proof {
        assert forall|i: int| 0 <= i < gap_end(all_ids, total, 0) implies !#[trigger] keep(i) by {
            lemma_selects_gap(all_ids, total, is_loader, 0, i);
        }
    }
    while k < found.len()
        invariant
            k <= found@.len(),
            symbols == module.symbols.0@,
            total == symbols.len(),
            is_loader == |i: int| 0 <= i < symbols.len() && load_module_name(symbols[i]) is Some,
            keep == |i: int| is_last_loader(symbols, i),
            all_ids == Seq::new(found@.len(), |k: int| found@[k].load_func as int),
            selects(all_ids, total, is_loader),
            forall|k: int|
                0 <= k < found@.len() ==> Some((#[trigger] found@[k]).module_name@)
                    == load_module_name(symbols[found@[k].load_func as int]),
            selects(
                Seq::new(kept@.len(), |j: int| kept@[j].load_func as int),
                gap_end(all_ids, total, k as int),
                keep,
            ),
            forall|j: int|
                0 <= j < kept@.len() ==> Some((#[trigger] kept@[j]).module_name@)
                    == load_module_name(symbols[kept@[j].load_func as int]),
        decreases found@.len() - k,
    {
        let id = found[k].load_func;
        let mut later: usize = k + 1;
        let mut repeated = false;
        while later < found.len()
            invariant
                k < later <= found@.len(),
                repeated <==> exists|j: int|
                    k < j < later
                        && (#[trigger] found@[j]).module_name@ == found@[k as int].module_name@,
            decreases found@.len() - later,
        {
            if found[later].module_name == found[k].module_name {
                repeated = true;
            }
            later += 1;
        }
        let ghost ids = Seq::new(kept@.len(), |j: int| kept@[j].load_func as int);
        proof {
            assert(all_ids[k as int] == id);
            assert(is_loader(all_ids[k as int]));
            if repeated {
                let j = choose|j: int|
                    k < j < found@.len() && (#[trigger] found@[j]).module_name@
                        == found@[k as int].module_name@;
                assert(all_ids[k as int] < all_ids[j]);
                assert(is_loader(all_ids[j]));
                assert(load_module_name(symbols[all_ids[j]]) == load_module_name(
                    symbols[id as int],
                ));
                assert(!keep(id as int));
            } else {
                assert forall|j: int| id < j < symbols.len() implies load_module_name(
                    #[trigger] symbols[j],
                ) != load_module_name(symbols[id as int]) by {
                    if is_loader(j) {
                        assert(all_ids.contains(j));
                        let p = choose|p: int| 0 <= p < all_ids.len() && all_ids[p] == j;
                        if p <= k {
                            if p < k {
                                assert(all_ids[p] < all_ids[k as int]);
                            }
                        } else {
                            assert(found@[p].module_name@ != found@[k as int].module_name@);
                        }
                    }
                }
                assert(keep(id as int));
            }
            lemma_selects_next(ids, id as int, keep);
            assert forall|i: int| id + 1 <= i < gap_end(all_ids, total, k + 1)
                implies !#[trigger] keep(
                i,
            ) by {
                lemma_selects_gap(all_ids, total, is_loader, k + 1, i);
            }
            lemma_selects_widen(
                if repeated {
                    ids
                } else {
                    ids.push(id as int)
                },
                id + 1,
                gap_end(all_ids, total, k + 1),
                keep,
            );
        }
        if !repeated {
            kept.push(SplitModule { module_name: found[k].module_name.clone(), load_func: id });
            assert(Seq::new(kept@.len(), |j: int| kept@[j].load_func as int) =~= ids.push(
                id as int,
            ));
        }
        k += 1;
    }
    kept
}

/// What went wrong while the split points were looked for or the modules
/// were laid out.
#[derive(Debug, PartialEq, Eq, Clone)]
pub enum SplitError {
    /// A name pattern was not accepted as a regular expression.
    BadPattern,
    /// A split import has no export with the same module name and id.
    NoExportForImport { module_name: String, unique_id: String },
    /// A split export has no import with the same module name and id.
    NoImportForExport { module_name: String, unique_id: String },
    /// The export of a split point is no function.
    ExportNotFunction { export: ExportId },
    /// The import of a split point is no function import.
    ImportNotFunction { import: ImportId },
    /// A function index lies outside the dependency graph.
    FunctionOutOfRange { func: InputFuncId },
}

/// A `SplitError` with its names as sequences of characters.
pub enum SplitErrorView {
    BadPattern,
    NoExportForImport { module_name: Seq<char>, unique_id: Seq<char> },
    NoImportForExport { module_name: Seq<char>, unique_id: Seq<char> },
    ExportNotFunction { export: ExportId },
    ImportNotFunction { import: ImportId },
    FunctionOutOfRange { func: InputFuncId },
}

impl View for SplitError {
    type V = SplitErrorView;

    open spec fn view(&self) -> SplitErrorView {
        match *self {
            SplitError::BadPattern => SplitErrorView::BadPattern,
            SplitError::NoExportForImport { module_name, unique_id } => {
                SplitErrorView::NoExportForImport {
                    module_name: module_name@,
                    unique_id: unique_id@,
                }
            },
            SplitError::NoImportForExport { module_name, unique_id } => {
                SplitErrorView::NoImportForExport {
                    module_name: module_name@,
                    unique_id: unique_id@,
                }
            },
            SplitError::ExportNotFunction { export } => SplitErrorView::ExportNotFunction {
                export,
            },
            SplitError::ImportNotFunction { import } => SplitErrorView::ImportNotFunction {
                import,
            },
            SplitError::FunctionOutOfRange { func } => SplitErrorView::FunctionOutOfRange { func },
        }
    }
}

/// What a split name holds: the name of the split module and the id that
/// pairs one import with one export.
#[derive(Debug, PartialEq, Eq, Clone)]
pub struct SplitKey {
    pub module_name: String,
    pub unique_id: String,
}

/// A `SplitKey` as two sequences of characters: module name, then id.
pub type KeyView = (Seq<char>, Seq<char>);

impl View for SplitKey {
    type V = KeyView;

    open spec fn view(&self) -> KeyView {
        (self.module_name@, self.unique_id@)
    }
}

impl SplitKey {
    /// Whether the two keys name the same module and id.
    pub fn same(&self, other: &SplitKey) -> (r: bool)
        ensures
            r == (self@ == other@),
    {
        self.module_name == other.module_name && self.unique_id == other.unique_id
    }
}

/// An import or export as the pairing sees it: the key in its name, if it
/// has the form of a split name, and its function, if it is one.
#[derive(Debug, PartialEq, Eq, Clone)]
pub struct SplitCandidate {
    pub key: Option<SplitKey>,
    pub func: Option<InputFuncId>,
}

/// A `SplitCandidate` with its key as sequences of characters.
pub struct CandidateView {
    pub key: Option<KeyView>,
    pub func: Option<InputFuncId>,
}

impl View for SplitCandidate {
    type V = CandidateView;

    open spec fn view(&self) -> CandidateView {
        CandidateView {
            key: match self.key {
                Some(key) => Some(key@),
                None => None,
            },
            func: self.func,
        }
    }
}

/// The views of a list of candidates.
pub open spec fn candidate_views(cs: Seq<SplitCandidate>) -> Seq<CandidateView> {
    Seq::new(cs.len(), |i: int| cs[i]@)
}

/// The last of the first `upto` candidates that has the key `key`.
pub open spec fn last_with_key(cs: Seq<CandidateView>, key: KeyView, upto: int) -> Option<int>
    decreases upto,
{
    if upto <= 0 {
        None
    } else if upto <= cs.len() && cs[upto - 1].key == Some(key) {
        Some(upto - 1)
    } else {
        last_with_key(cs, key, upto - 1)
    }
}

/// The last candidate with a key is one of the candidates and has the
/// key.
pub proof fn lemma_last_with_key(cs: Seq<CandidateView>, key: KeyView, upto: int)
    ensures
        last_with_key(cs, key, upto) matches Some(i) ==> 0 <= i < upto && i < cs.len()
            && cs[i].key == Some(key),
    decreases upto,
{
    if upto > 0 {
        lemma_last_with_key(cs, key, upto - 1);
    }
}

/// The candidate that stands for `key`: the last one that has it.
pub open spec fn holder(cs: Seq<CandidateView>, key: KeyView) -> Option<int> {
    last_with_key(cs, key, cs.len() as int)
}

/// Whether candidate `i` has a key and stands for it.
pub open spec fn is_effective(cs: Seq<CandidateView>, i: int) -> bool {
    &&& 0 <= i < cs.len()
    &&& cs[i].key is Some
    &&& holder(cs, cs[i].key->0) == Some(i)
}

/// What is wrong with the split import `i`, if anything: its key has no
/// export, or that export is no function, or the import itself is none.
pub open spec fn import_problem(
    imports: Seq<CandidateView>,
    exports: Seq<CandidateView>,
    i: int,
) -> Option<SplitErrorView> {
    let key = imports[i].key->0;
    match holder(exports, key) {
        None => Some(SplitErrorView::NoExportForImport { module_name: key.0, unique_id: key.1 }),
        Some(e) => if exports[e].func is None {
            Some(SplitErrorView::ExportNotFunction { export: e as usize })
        } else if imports[i].func is None {
            Some(SplitErrorView::ImportNotFunction { import: i as usize })
        } else {
            None
        },
    }
}

/// The split point of the split import `i`.
pub open spec fn paired_point(
    imports: Seq<CandidateView>,
    exports: Seq<CandidateView>,
    i: int,
) -> SplitPointView {
    let key = imports[i].key->0;
    let e = holder(exports, key)->0;
    SplitPointView {
        module_name: key.0,
        import: i as usize,
        import_func: imports[i].func->0,
        export: e as usize,
        export_func: exports[e].func->0,
    }
}

/// Whether the split export `e` has no import with its key.
pub open spec fn is_orphan_export(
    imports: Seq<CandidateView>,
    exports: Seq<CandidateView>,
    e: int,
) -> bool {
    is_effective(exports, e) && holder(imports, exports[e].key->0) is None
}

/// The error for the split export `e` that has no import.
pub open spec fn orphan_error(exports: Seq<CandidateView>, e: int) -> SplitErrorView {
    let key = exports[e].key->0;
    SplitErrorView::NoImportForExport { module_name: key.0, unique_id: key.1 }
}

/// Whether no split import before `upto` has a problem.
pub open spec fn imports_fine(
    imports: Seq<CandidateView>,
    exports: Seq<CandidateView>,
    upto: int,
) -> bool {
    forall|i: int|
        0 <= i < upto && #[trigger] is_effective(imports, i) ==> import_problem(imports, exports, i)
            is None
}

/// Whether no split export before `upto` lacks its import.
pub open spec fn exports_fine(
    imports: Seq<CandidateView>,
    exports: Seq<CandidateView>,
    upto: int,
) -> bool {
    forall|e: int| 0 <= e < upto ==> !#[trigger] is_orphan_export(imports, exports, e)
}

/// Whether `r` is the outcome of pairing the split imports with the split
/// exports: the split points in the order of their imports where every
/// split import has its export, both are functions, and every split export
/// has its import; else the problem of the first split import that has
/// one, or, where none has, the first split export without an import.
pub open spec fn pairs(
    imports: Seq<CandidateView>,
    exports: Seq<CandidateView>,
    r: Result<Seq<SplitPointView>, SplitErrorView>,
) -> bool {
    match r {
        Ok(points) => {
            &&& imports_fine(imports, exports, imports.len() as int)
            &&& exports_fine(imports, exports, exports.len() as int)
            &&& selects(
                Seq::new(points.len(), |k: int| points[k].import as int),
                imports.len() as int,
                |i: int| is_effective(imports, i),
            )
            &&& forall|k: int|
                0 <= k < points.len() ==> #[trigger] points[k] == paired_point(
                    imports,
                    exports,
                    points[k].import as int,
                )
        },
        Err(err) => {
            ||| exists|i: int|
                {
                    &&& #[trigger] is_effective(imports, i)
                    &&& imports_fine(imports, exports, i)
                    &&& import_problem(imports, exports, i) == Some(err)
                }
            ||| {
                &&& imports_fine(imports, exports, imports.len() as int)
                &&& exists|e: int|
                    {
                        &&& #[trigger] is_orphan_export(imports, exports, e)
                        &&& exports_fine(imports, exports, e)
                        &&& err == orphan_error(exports, e)
                    }
            }
        },
    }
}

/// Where no import and no export has a key, the search for split points
/// succeeds and finds none.
pub proof fn lemma_no_keys_no_points(
    imports: Seq<CandidateView>,
    exports: Seq<CandidateView>,
    r: Result<Seq<SplitPointView>, SplitErrorView>,
)
    requires
        forall|i: int| 0 <= i < imports.len() ==> (#[trigger] imports[i]).key is None,
        forall|e: int| 0 <= e < exports.len() ==> (#[trigger] exports[e]).key is None,
        pairs(imports, exports, r),
    ensures
        r matches Ok(points) && points.len() == 0,
{
    match r {
        Ok(points) => {
            let ids = Seq::new(points.len(), |k: int| points[k].import as int);
            if points.len() > 0 {
                assert(is_effective(imports, ids[0]));
            }
        },
        Err(err) => {},
    }
}

/// The outcome of a search for split points with its names as sequences of
/// characters.
pub open spec fn outcome_view(r: Result<Vec<SplitPoint>, SplitError>) -> Result<
    Seq<SplitPointView>,
    SplitErrorView,
> {
    match r {
        Ok(points) => Ok(point_views(points@)),
        Err(err) => Err(err@),
    }
}

/// The candidate that stands for `key`: the last one that has it.
pub fn find_holder(cs: &Vec<SplitCandidate>, key: &SplitKey) -> (r: Option<usize>)
    ensures
        match r {
            Some(i) => i < cs@.len() && holder(candidate_views(cs@), key@) == Some(i as int),
            None => holder(candidate_views(cs@), key@) is None,
        },
{
    let ghost views = candidate_views(cs@);
    let mut upto: usize = cs.len();
    while upto > 0
        invariant
            upto <= cs@.len(),
            views == candidate_views(cs@),
            holder(views, key@) == last_with_key(views, key@, upto as int),
        decreases upto,
    {
        match &cs[upto - 1].key {
            Some(found) => {
                if found.same(key) {
                    return Some(upto - 1);
                }
            },
            None => {},
        }
        upto -= 1;
    }
    None
}

/// Pairs the split imports with the split exports. A candidate with a key
/// is a split import or export; where several of one list have the same
/// key, the last stands for it.
pub fn pair_split_points(imports: &Vec<SplitCandidate>, exports: &Vec<SplitCandidate>) -> (r:
    Result<Vec<SplitPoint>, SplitError>)
    ensures
        pairs(candidate_views(imports@), candidate_views(exports@), outcome_view(r)),
{
    let ghost ins = candidate_views(imports@);
    let ghost outs = candidate_views(exports@);
    let ghost keep = |i: int| is_effective(ins, i);
    let mut points: Vec<SplitPoint> = Vec::new();
    let mut i: usize = 0;
    while i < imports.len()
        invariant
            i <= imports@.len(),
            ins == candidate_views(imports@),
            outs == candidate_views(exports@),
            keep == |i: int| is_effective(ins, i),
            imports_fine(ins, outs, i as int),
            selects(Seq::new(points@.len(), |k: int| points@[k]@.import as int), i as int, keep),
            forall|k: int|
                0 <= k < points@.len() ==> (#[trigger] points@[k])@ == paired_point(
                    ins,
                    outs,
                    points@[k]@.import as int,
                ),
        decreases imports@.len() - i,
    {
        let ghost ids = Seq::new(points@.len(), |k: int| points@[k]@.import as int);
        proof {
            lemma_selects_next(ids, i as int, keep);
        }
        match &imports[i].key {
            Some(key) => {
                assert(ins[i as int].key == Some(key@));
                let stands = find_holder(imports, key);
                if stands == Some(i) {
                    assert(is_effective(ins, i as int));
                    let export = match find_holder(exports, key) {
                        Some(e) => e,
                        None => {
                            let err = SplitError::NoExportForImport {
                                module_name: key.module_name.clone(),
                                unique_id: key.unique_id.clone(),
                            };
                            assert(import_problem(ins, outs, i as int) == Some(err@));
                            return Err(err);
                        },
                    };
                    assert(outs[export as int] == exports@[export as int]@);
                    let export_func = match exports[export].func {
                        Some(f) => f,
                        None => {
                            let err = SplitError::ExportNotFunction { export };
                            assert(import_problem(ins, outs, i as int) == Some(err@));
                            return Err(err);
                        },
                    };
                    let import_func = match imports[i].func {
                        Some(f) => f,
                        None => {
                            let err = SplitError::ImportNotFunction { import: i };
                            assert(import_problem(ins, outs, i as int) == Some(err@));
                            return Err(err);
                        },
                    };
                    assert(import_problem(ins, outs, i as int) is None);
                    let point = SplitPoint {
                        module_name: key.module_name.clone(),
                        import: i,
                        import_func,
                        export,
                        export_func,
                    };
                    assert(point@ == paired_point(ins, outs, i as int));
                    points.push(point);
                    assert(Seq::new(points@.len(), |k: int| points@[k]@.import as int) =~= ids.push(
                        i as int,
                    ));
                } else {
                    assert(!is_effective(ins, i as int));
                }
            },
            None => {
                assert(!is_effective(ins, i as int));
            },
        }
        i += 1;
    }
    let mut e: usize = 0;
    while e < exports.len()
        invariant
            e <= exports@.len(),
            ins == candidate_views(imports@),
            outs == candidate_views(exports@),
            imports_fine(ins, outs, ins.len() as int),
            exports_fine(ins, outs, e as int),
        decreases exports@.len() - e,
    {
        match &exports[e].key {
            Some(key) => {
                assert(outs[e as int].key == Some(key@));
                let stands = find_holder(exports, key);
                if stands == Some(e) {
                    match find_holder(imports, key) {
                        Some(_) => {},
                        None => {
                            let err = SplitError::NoImportForExport {
                                module_name: key.module_name.clone(),
                                unique_id: key.unique_id.clone(),
                            };
                            assert(is_orphan_export(ins, outs, e as int));
                            return Err(err);
                        },
                    }
                }
            },
            None => {},
        }
        assert(!is_orphan_export(ins, outs, e as int));
        e += 1;
    }
    assert(point_views(points@) =~= point_views(points@));
    proof {
        let pv = point_views(points@);
        assert(Seq::new(pv.len(), |k: int| pv[k].import as int) =~= Seq::new(
            points@.len(),
            |k: int| points@[k]@.import as int,
        ));
    }
    Ok(points)
}

/// The pattern of the name of a split import.
pub open spec fn import_pattern() -> Seq<char> {
    "__wasm_split_00(.*)00_import_([0-9a-f]{32})"@
}

/// The pattern of the name of a split export.
pub open spec fn export_pattern() -> Seq<char> {
    "__wasm_split_00(.*)00_export_([0-9a-f]{32})"@
}

/// The key in what a split pattern captured: the first group is the module
/// name and the second the id. Anything but a match with exactly these two
/// groups gives no key.
pub open spec fn key_in_groups(found: Option<Seq<Option<Seq<char>>>>) -> Option<KeyView> {
    match found {
        Some(groups) => if groups.len() == 3 && groups[1] is Some && groups[2] is Some {
            Some((groups[1]->0, groups[2]->0))
        } else {
            None
        },
        None => None,
    }
}

/// The key that the split pattern `pattern` finds in `name`.
pub open spec fn split_key(pattern: Seq<char>, name: Seq<char>) -> Option<KeyView> {
    key_in_groups(pattern_captures(pattern, name))
}

/// The key of a candidate as sequences of characters.
pub open spec fn key_view(key: Option<SplitKey>) -> Option<KeyView> {
    match key {
        Some(key) => Some(key@),
        None => None,
    }
}

/// The key in what a split pattern captured.
pub fn key_from_groups(found: &Option<Vec<Option<String>>>) -> (r: Option<SplitKey>)
    ensures
        key_view(r) == key_in_groups(captures_view(*found)),
{
    match found {
        Some(groups) => {
            if groups.len() != 3 {
                return None;
            }
            assert(groups_view(groups@)[1] == match groups@[1] {
                Some(text) => Some(text@),
                None => None,
            });
            assert(groups_view(groups@)[2] == match groups@[2] {
                Some(text) => Some(text@),
                None => None,
            });
            match (&groups[1], &groups[2]) {
                (Some(module_name), Some(unique_id)) => Some(
                    SplitKey { module_name: module_name.clone(), unique_id: unique_id.clone() },
                ),
                _ => None,
            }
        },
        None => None,
    }
}

/// What the pairing sees of the imports of `module`.
pub open spec fn import_candidates(module: &InputModule) -> Seq<CandidateView> {
    Seq::new(
        module.imports@.len(),
        |i: int|
            CandidateView {
                key: split_key(import_pattern(), module.imports@[i].name@),
                func: module.imported_func_of(i),
            },
    )
}

/// The function that an export stands for, if it exports one.
pub open spec fn exported_func(export: Export) -> Option<InputFuncId> {
    if export.kind == ExternalKind::Func {
        Some(export.index as usize)
    } else {
        None
    }
}

/// What the pairing sees of the exports of `module`.
pub open spec fn export_candidates(module: &InputModule) -> Seq<CandidateView> {
    Seq::new(
        module.exports@.len(),
        |e: int|
            CandidateView {
                key: split_key(export_pattern(), module.exports@[e].name@),
                func: exported_func(module.exports@[e]),
            },
    )
}

/// The function that `export` stands for, if it exports one.
pub fn export_func_of(export: &Export) -> (r: Option<InputFuncId>)
    ensures
        r == exported_func(*export),
{
    match export.kind {
        ExternalKind::Func => Some(export.index as usize),
        _ => None,
    }
}

/// Finds the split points of `module`: the imports and exports whose names
/// have the form of a split name, paired by module name and id.
///
/// Fails with `BadPattern` if a pattern is not accepted as a regular
/// expression; else the outcome is that of `pair_split_points` on the keys
/// that the patterns find in the names.
pub fn get_split_points(module: &InputModule) -> (r: Result<Vec<SplitPoint>, SplitError>)
    ensures
        !pattern_compiles(import_pattern()) || !pattern_compiles(export_pattern())
            ==> r matches Err(
            SplitError::BadPattern,
        ),
        pattern_compiles(import_pattern()) && pattern_compiles(export_pattern()) ==> pairs(
            import_candidates(module),
            export_candidates(module),
            outcome_view(r),
        ),
{
    // See that both patterns are accepted before any name is matched.
    match capture_groups("__wasm_split_00(.*)00_import_([0-9a-f]{32})", "") {
        Ok(_) => {},
        Err(_) => {
            return Err(SplitError::BadPattern);
        },
    }
    match capture_groups("__wasm_split_00(.*)00_export_([0-9a-f]{32})", "") {
        Ok(_) => {},
        Err(_) => {
            return Err(SplitError::BadPattern);
        },
    }
    let mut imports: Vec<SplitCandidate> = Vec::new();
    let mut i: usize = 0;
    while i < module.imports.len()
        invariant
            i <= module.imports@.len(),
            imports@.len() == i,
            forall|j: int| 0 <= j < i ==> (#[trigger] imports@[j])@ == import_candidates(module)[j],
        decreases module.imports@.len() - i,
    {
        let found = match capture_groups(
            "__wasm_split_00(.*)00_import_([0-9a-f]{32})",
            module.imports[i].name.as_str(),
        ) {
            Ok(found) => found,
            Err(_) => {
                return Err(SplitError::BadPattern);
            },
        };
        let key = key_from_groups(&found);
        let func = module.imported_func(i);
        imports.push(SplitCandidate { key, func });
        i += 1;
    }
    let mut exports: Vec<SplitCandidate> = Vec::new();
    let mut e: usize = 0;
    while e < module.exports.len()
        invariant
            e <= module.exports@.len(),
            exports@.len() == e,
            forall|j: int| 0 <= j < e ==> (#[trigger] exports@[j])@ == export_candidates(module)[j],
        decreases module.exports@.len() - e,
    {
        let found = match capture_groups(
            "__wasm_split_00(.*)00_export_([0-9a-f]{32})",
            module.exports[e].name.as_str(),
        ) {
            Ok(found) => found,
            Err(_) => {
                return Err(SplitError::BadPattern);
            },
        };
        let key = key_from_groups(&found);
        let func = export_func_of(&module.exports[e]);
        exports.push(SplitCandidate { key, func });
        e += 1;
    }
    assert(candidate_views(imports@) =~= import_candidates(module));
    assert(candidate_views(exports@) =~= export_candidates(module));
    pair_split_points(&imports, &exports)
}

} // verus!
