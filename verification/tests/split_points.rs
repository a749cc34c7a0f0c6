use wasm_split_cli::read::{
    ExternalKind, Export, Import, InputModule, SymbolInfo, SymbolTable,
};
use wasm_split_cli::split_point::{
    find_holder, get_split_modules, get_split_points, key_from_groups, pair_split_points,
    SplitCandidate, SplitError, SplitKey, SplitModule, SplitPoint,
};

const ID_A: &str = "0123456789abcdef0123456789abcdef";
const ID_B: &str = "fedcba9876543210fedcba9876543210";

fn import(name: &str, kind: ExternalKind) -> Import {
    Import { module: "env".to_string(), name: name.to_string(), kind }
}

fn export(name: &str, kind: ExternalKind, index: u32) -> Export {
    Export { name: name.to_string(), kind, index }
}

fn module(imports: Vec<Import>, exports: Vec<Export>, symbols: Vec<SymbolInfo>) -> InputModule {
    InputModule {
        imports,
        exports,
        defined_funcs: Vec::new(),
        data_segment_ranges: Vec::new(),
        symbols: SymbolTable(symbols),
        relocations: Vec::new(),
        function_names: Vec::new(),
        start: None,
    }
}

fn key(module_name: &str, unique_id: &str) -> SplitKey {
    SplitKey { module_name: module_name.to_string(), unique_id: unique_id.to_string() }
}

fn candidate(k: Option<SplitKey>, func: Option<usize>) -> SplitCandidate {
    SplitCandidate { key: k, func }
}

fn func_symbol(name: Option<&str>, index: u32) -> SymbolInfo {
    SymbolInfo::Func { index, name: name.map(String::from) }
}

#[test]
fn split_points_are_paired_by_module_and_id() {
    let m = module(
        vec![
            import("memory", ExternalKind::Memory),
            import(&format!("__wasm_split_00beta00_import_{ID_B}"), ExternalKind::Func),
            import("log", ExternalKind::Func),
            import(&format!("__wasm_split_00alpha00_import_{ID_A}"), ExternalKind::Func),
        ],
        vec![
            export(&format!("__wasm_split_00alpha00_export_{ID_A}"), ExternalKind::Func, 7),
            export("run", ExternalKind::Func, 5),
            export(&format!("__wasm_split_00beta00_export_{ID_B}"), ExternalKind::Func, 9),
        ],
        Vec::new(),
    );
    let points = get_split_points(&m).unwrap();
    assert_eq!(
        points,
        vec![
            SplitPoint {
                module_name: "beta".to_string(),
                import: 1,
                import_func: 0,
                export: 2,
                export_func: 9,
            },
            SplitPoint {
                module_name: "alpha".to_string(),
                import: 3,
                import_func: 2,
                export: 0,
                export_func: 7,
            },
        ]
    );
}

#[test]
fn names_that_are_no_split_names_are_passed_over() {
    let m = module(
        vec![
            // The id has 31 digits only.
            import("__wasm_split_00alpha00_import_0123456789abcdef0123456789abcde", ExternalKind::Func),
            // Upper case is no hex digit of the pattern.
            import("__wasm_split_00alpha00_import_0123456789ABCDEF0123456789ABCDEF", ExternalKind::Func),
            import("__wasm_split_load_alpha", ExternalKind::Func),
        ],
        vec![export("__wasm_split_00alpha00_exports_0123456789abcdef0123456789abcdef", ExternalKind::Func, 1)],
        Vec::new(),
    );
    assert_eq!(get_split_points(&m).unwrap(), Vec::new());
}

#[test]
fn module_name_may_hold_zeros_and_underscores() {
    let m = module(
        vec![import(&format!("__wasm_split_00my_00mod00_import_{ID_A}"), ExternalKind::Func)],
        vec![export(&format!("__wasm_split_00my_00mod00_export_{ID_A}"), ExternalKind::Func, 3)],
        Vec::new(),
    );
    let points = get_split_points(&m).unwrap();
    assert_eq!(points.len(), 1);
    assert_eq!(points[0].module_name, "my_00mod");
    assert_eq!(points[0].import_func, 0);
    assert_eq!(points[0].export_func, 3);
}

#[test]
fn orphan_export_is_an_error_naming_the_pair() {
    let m = module(
        Vec::new(),
        vec![export(&format!("__wasm_split_00alpha00_export_{ID_A}"), ExternalKind::Func, 1)],
        Vec::new(),
    );
    assert_eq!(
        get_split_points(&m),
        Err(SplitError::NoImportForExport {
            module_name: "alpha".to_string(),
            unique_id: ID_A.to_string(),
        })
    );
}

#[test]
fn orphan_import_is_an_error_naming_the_pair() {
    let m = module(
        vec![import(&format!("__wasm_split_00alpha00_import_{ID_A}"), ExternalKind::Func)],
        vec![export(&format!("__wasm_split_00alpha00_export_{ID_B}"), ExternalKind::Func, 1)],
        Vec::new(),
    );
    assert_eq!(
        get_split_points(&m),
        Err(SplitError::NoExportForImport {
            module_name: "alpha".to_string(),
            unique_id: ID_A.to_string(),
        })
    );
}

#[test]
fn split_export_must_be_a_function() {
    let m = module(
        vec![import(&format!("__wasm_split_00alpha00_import_{ID_A}"), ExternalKind::Func)],
        vec![
            export("run", ExternalKind::Func, 1),
            export(&format!("__wasm_split_00alpha00_export_{ID_A}"), ExternalKind::Global, 0),
        ],
        Vec::new(),
    );
    assert_eq!(get_split_points(&m), Err(SplitError::ExportNotFunction { export: 1 }));
}

#[test]
fn split_import_must_be_a_function() {
    let m = module(
        vec![
            import("log", ExternalKind::Func),
            import(&format!("__wasm_split_00alpha00_import_{ID_A}"), ExternalKind::Table),
        ],
        vec![export(&format!("__wasm_split_00alpha00_export_{ID_A}"), ExternalKind::Func, 4)],
        Vec::new(),
    );
    assert_eq!(get_split_points(&m), Err(SplitError::ImportNotFunction { import: 1 }));
}

#[test]
fn the_first_problem_is_reported() {
    let imports = vec![
        candidate(Some(key("a", "1")), Some(0)),
        candidate(Some(key("b", "2")), None),
        candidate(Some(key("c", "3")), Some(1)),
    ];
    let exports = vec![
        candidate(Some(key("a", "1")), Some(5)),
        candidate(Some(key("b", "2")), Some(6)),
        candidate(Some(key("d", "4")), Some(7)),
    ];
    // Import 1 is no function; import 2 has no export; export 2 has no import.
    assert_eq!(
        pair_split_points(&imports, &exports),
        Err(SplitError::ImportNotFunction { import: 1 })
    );
    let imports = vec![
        candidate(Some(key("a", "1")), Some(0)),
        candidate(Some(key("c", "3")), Some(1)),
    ];
    assert_eq!(
        pair_split_points(&imports, &exports),
        Err(SplitError::NoExportForImport { module_name: "c".into(), unique_id: "3".into() })
    );
    let imports = vec![candidate(Some(key("a", "1")), Some(0))];
    assert_eq!(
        pair_split_points(&imports, &exports),
        Err(SplitError::NoImportForExport { module_name: "b".into(), unique_id: "2".into() })
    );
}

#[test]
fn the_last_of_equal_keys_stands_for_it() {
    let imports = vec![
        candidate(Some(key("a", "1")), Some(0)),
        candidate(None, Some(1)),
        candidate(Some(key("a", "1")), Some(2)),
    ];
    let exports = vec![
        candidate(Some(key("a", "1")), None),
        candidate(Some(key("a", "1")), Some(8)),
    ];
    assert_eq!(find_holder(&imports, &key("a", "1")), Some(2));
    assert_eq!(find_holder(&exports, &key("a", "1")), Some(1));
    assert_eq!(find_holder(&exports, &key("a", "2")), None);
    assert_eq!(
        pair_split_points(&imports, &exports),
        Ok(vec![SplitPoint {
            module_name: "a".to_string(),
            import: 2,
            import_func: 2,
            export: 1,
            export_func: 8,
        }])
    );
}

#[test]
fn pairing_nothing_gives_nothing() {
    assert_eq!(pair_split_points(&Vec::new(), &Vec::new()), Ok(Vec::new()));
    let plain = vec![candidate(None, Some(0)), candidate(None, None)];
    assert_eq!(pair_split_points(&plain, &plain), Ok(Vec::new()));
}

#[test]
fn key_needs_exactly_two_groups() {
    let s = |t: &str| Some(t.to_string());
    assert_eq!(key_from_groups(&None), None);
    assert_eq!(key_from_groups(&Some(vec![s("whole"), s("m"), s("id")])), Some(key("m", "id")));
    assert_eq!(key_from_groups(&Some(vec![s("whole"), s("m")])), None);
    assert_eq!(key_from_groups(&Some(vec![s("whole"), None, s("id")])), None);
    assert_eq!(key_from_groups(&Some(vec![s("whole"), s("m"), s("id"), s("x")])), None);
}

#[test]
fn split_modules_come_from_load_symbols() {
    let m = module(
        Vec::new(),
        Vec::new(),
        vec![
            func_symbol(Some("__wasm_split_load_alpha"), 3),
            func_symbol(Some("main"), 4),
            func_symbol(None, 5),
            SymbolInfo::Data { name: "__wasm_split_load_gamma".to_string(), symbol: None },
            func_symbol(Some("__wasm_split_load_beta"), 6),
            SymbolInfo::Other,
            func_symbol(Some("__wasm_split_load_alpha"), 7),
            func_symbol(Some("__wasm_split_load_"), 8),
            func_symbol(Some("x__wasm_split_load_delta"), 9),
        ],
    );
    assert_eq!(
        get_split_modules(&m),
        vec![
            SplitModule { module_name: "beta".to_string(), load_func: 4 },
            SplitModule { module_name: "alpha".to_string(), load_func: 6 },
            SplitModule { module_name: "".to_string(), load_func: 7 },
        ]
    );
    assert!(get_split_modules(&module(Vec::new(), Vec::new(), Vec::new())).is_empty());
}

#[test]
fn imported_functions_are_counted_in_import_order() {
    let m = module(
        vec![
            import("a", ExternalKind::Func),
            import("mem", ExternalKind::Memory),
            import("b", ExternalKind::Func),
            import("g", ExternalKind::Global),
            import("c", ExternalKind::Func),
        ],
        Vec::new(),
        Vec::new(),
    );
    assert_eq!(m.imported_func(0), Some(0));
    assert_eq!(m.imported_func(1), None);
    assert_eq!(m.imported_func(2), Some(1));
    assert_eq!(m.imported_func(3), None);
    assert_eq!(m.imported_func(4), Some(2));
    assert_eq!(m.imported_func(5), None);
    assert_eq!(m.imported_func_count(), 3);
    assert_eq!(m.func_count(), Some(3));
}
