use wasm_split_cli::bodies::{emit_bodies, emit_body, function_layout};
use wasm_split_cli::emit::{EmitError, FunctionImport};
use wasm_split_cli::identifier::SplitModuleIdentifier;
use wasm_split_cli::layout::SplitProgramInfo;
use wasm_split_cli::module_info::ModuleInfo;
use wasm_split_cli::nodes::DepNode;
use wasm_split_cli::partition::split_module;
use wasm_split_cli::read::{
    ByteRange, Export, ExternalKind, Import, InputModule, RelocKind, Relocation, SymbolInfo,
    SymbolTable, CODE_SECTION_ID,
};
use wasm_split_cli::split_point::SplitPoint;

const ID: &str = "0123456789abcdef0123456789abcdef";

fn call(start: usize, symbol: usize) -> Relocation {
    Relocation {
        section_id: CODE_SECTION_ID,
        kind: RelocKind::FunctionIndexLeb,
        range: ByteRange { start, end: start + 5 },
        symbol: Some(symbol),
    }
}

/// Function 0 is the import of a split point of `alpha` and function 1 an
/// import of the environment. Function 2, the entry, calls both; function
/// 3, the export of the split point, calls functions 4 and 1.
fn program() -> InputModule {
    let import =
        |name: String| Import { module: "env".to_string(), name, kind: ExternalKind::Func };
    let export = |name: String, index: u32| Export { name, kind: ExternalKind::Func, index };
    let func = |index: u32| SymbolInfo::Func { index, name: None };
    InputModule {
        imports: vec![
            import(format!("__wasm_split_00alpha00_import_{ID}")),
            import("log".to_string()),
        ],
        exports: vec![
            export("main_entry".to_string(), 2),
            export(format!("__wasm_split_00alpha00_export_{ID}"), 3),
        ],
        defined_funcs: vec![
            ByteRange { start: 0, end: 12 },
            ByteRange { start: 12, end: 22 },
            ByteRange { start: 22, end: 28 },
        ],
        data_segment_ranges: Vec::new(),
        symbols: SymbolTable(vec![func(0), func(4), func(1)]),
        // The last two lie over one another: the later one is written last.
        relocations: vec![call(1, 0), call(6, 2), call(13, 1), call(17, 2)],
        function_names: Vec::new(),
        start: None,
    }
}

fn code() -> Vec<u8> {
    (100..128).collect()
}

fn split() -> (ModuleInfo, Vec<SplitPoint>, SplitProgramInfo) {
    let info = ModuleInfo::new(program()).unwrap();
    let (points, plan) = split_module(&info).unwrap();
    (info, points, plan)
}

#[test]
fn a_module_is_read_and_split_in_one_go() {
    let (_, points, plan) = split();
    assert_eq!(points.len(), 1);
    assert_eq!((points[0].import_func, points[0].export_func), (0, 3));
    assert_eq!(plan.output_modules.len(), 2);
    assert!(plan.output_modules[0].0.same(&SplitModuleIdentifier::Main));
    assert!(plan.output_modules[1].0.same(&SplitModuleIdentifier::Split("alpha".to_string())));
    let main = &plan.output_modules[0].1;
    let alpha = &plan.output_modules[1].1;
    assert_eq!(main.included_symbols.functions(), vec![1, 2]);
    assert_eq!(alpha.included_symbols.functions(), vec![3, 4]);
    assert_eq!(main.shared_imports, vec![3]);
    assert_eq!(alpha.shared_imports, vec![1]);
    assert_eq!(plan.shared_funcs, vec![1, 3]);
}

#[test]
fn functions_are_numbered_imports_first() {
    let (_, points, plan) = split();
    let main = function_layout(&plan, &points, 0);
    assert_eq!(main.imports, vec![FunctionImport { from_output: 1, func: 3 }]);
    assert_eq!(main.locals, vec![1, 2]);
    assert_eq!(main.order, vec![3, 1, 2]);
    assert_eq!(main.targets, vec![3, 1, 2, 3, 4]);
    assert_eq!(main.table, vec![None, Some(1), Some(2), Some(0), None]);
    let alpha = function_layout(&plan, &points, 1);
    assert_eq!(alpha.imports, vec![FunctionImport { from_output: 0, func: 1 }]);
    assert_eq!(alpha.locals, vec![3, 4]);
    assert_eq!(alpha.order, vec![1, 3, 4]);
    assert_eq!(alpha.table, vec![None, Some(0), None, Some(1), Some(2)]);
}

#[test]
fn bodies_keep_their_bytes_but_for_the_references() {
    let (info, points, plan) = split();
    let main = function_layout(&plan, &points, 0);
    let bodies = emit_bodies(&info.module, &code(), &main).unwrap();
    // Function 1 is imported and has no body. The call of the split import
    // has become a call of its export, which has the new index 0.
    assert_eq!(
        bodies,
        vec![
            None,
            Some(vec![100, 0x80, 0x80, 0x80, 0x80, 0x00, 0x81, 0x80, 0x80, 0x80, 0x00, 111]),
        ]
    );
    let alpha = function_layout(&plan, &points, 1);
    let bodies = emit_bodies(&info.module, &code(), &alpha).unwrap();
    assert_eq!(
        bodies,
        vec![
            Some(vec![112, 0x82, 0x80, 0x80, 0x80, 0x80, 0x80, 0x80, 0x80, 0x00]),
            Some(vec![122, 123, 124, 125, 126, 127]),
        ]
    );
}

#[test]
fn a_body_without_references_is_copied() {
    let m = program();
    let body = ByteRange { start: 22, end: 28 };
    let out = emit_body(&m, &code(), 4, body, &Vec::new(), &Vec::new()).unwrap();
    assert_eq!(out, vec![122, 123, 124, 125, 126, 127]);
    let nothing = ByteRange { start: 28, end: 28 };
    let empty = emit_body(&m, &code(), 4, nothing, &Vec::new(), &Vec::new());
    assert_eq!(empty, Ok(Vec::new()));
}

#[test]
fn bodies_that_cannot_be_emitted_are_errors() {
    let (info, points, plan) = split();
    let alpha = function_layout(&plan, &points, 1);
    let short: Vec<u8> = (100..127).collect();
    assert_eq!(
        emit_bodies(&info.module, &short, &alpha),
        Err(EmitError::BodyOutOfRange { func: 4 })
    );
    let m = program();
    let backwards = ByteRange { start: 9, end: 8 };
    assert_eq!(
        emit_body(&m, &code(), 7, backwards, &alpha.targets, &alpha.table),
        Err(EmitError::BodyOutOfRange { func: 7 })
    );
    // In the main module function 4 has no index.
    let main = function_layout(&plan, &points, 0);
    let body = ByteRange { start: 12, end: 22 };
    assert_eq!(
        emit_body(&m, &code(), 3, body, &main.targets, &main.table),
        Err(EmitError::NoIndex { func: 4 })
    );
    let mut narrow = program();
    narrow.relocations[2].range.end = 17;
    assert_eq!(
        emit_body(&narrow, &code(), 3, body, &alpha.targets, &alpha.table),
        Err(EmitError::BadWidth { relocation: 2 })
    );
}

#[test]
fn chains_of_parents_end_at_a_root() {
    let (info, _, plan) = split();
    let alpha = &plan.output_modules[1].1;
    let listing = alpha.print("alpha", &info.module);
    assert_eq!(listing.functions.len(), 2);
    assert_eq!(listing.functions[0].func, 3);
    assert!(listing.functions[0].chain.is_empty());
    assert_eq!(listing.functions[1].func, 4);
    assert_eq!(listing.functions[1].chain, vec![DepNode::Function(3)]);
    assert_eq!(alpha.parents.get(DepNode::Function(3)), None);
    assert_eq!((listing.functions[0].size, listing.functions[1].size), (10, 6));
    assert_eq!(listing.total_size, 16);
    let main = &plan.output_modules[0].1;
    let listing = main.print("main", &info.module);
    // An imported function is an entry of the program, as function 2 is.
    assert!(listing.functions[0].chain.is_empty());
    assert!(listing.functions[1].chain.is_empty());
    assert_eq!(listing.total_size, 12);
}
