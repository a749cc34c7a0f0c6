use wasm_split_cli::emit::{
    apply_patches, call_targets, encode_index, function_imports, function_order, index_table,
    reference_patches, retained_segments, segment_image, start_function, EmitError,
    FunctionImport, Patch,
};
use wasm_split_cli::graph::DepGraph;
use wasm_split_cli::layout::SplitProgramInfo;
use wasm_split_cli::nodes::{DepNode, NodeSet};
use wasm_split_cli::partition::compute_split_modules;
use wasm_split_cli::read::{
    ByteRange, DefinedDataSymbol, ExternalKind, Export, Import, InputModule, RelocKind,
    Relocation, SymbolInfo, SymbolTable, CODE_SECTION_ID, DATA_SECTION_ID,
};
use wasm_split_cli::split_point::{get_split_points, SplitPoint};

const ID_A: &str = "0123456789abcdef0123456789abcdef";
const ID_B: &str = "fedcba9876543210fedcba9876543210";

fn f(i: usize) -> DepNode {
    DepNode::Function(i)
}

fn d(i: usize) -> DepNode {
    DepNode::DataSymbol(i)
}

fn data(index: u32, offset: u32, size: u32) -> SymbolInfo {
    SymbolInfo::Data {
        name: "d".to_string(),
        symbol: Some(DefinedDataSymbol { index, offset, size }),
    }
}

fn two_splits(start: Option<usize>) -> (InputModule, SplitProgramInfo) {
    let import = |name: String| Import { module: "env".to_string(), name, kind: ExternalKind::Func };
    let export = |name: String, index: u32| Export { name, kind: ExternalKind::Func, index };
    let m = InputModule {
        imports: vec![
            import(format!("__wasm_split_00alpha00_import_{ID_A}")),
            import(format!("__wasm_split_00beta00_import_{ID_B}")),
        ],
        exports: vec![
            export("main_entry".to_string(), 2),
            export(format!("__wasm_split_00alpha00_export_{ID_A}"), 3),
            export(format!("__wasm_split_00beta00_export_{ID_B}"), 4),
        ],
        defined_funcs: Vec::new(),
        data_segment_ranges: vec![
            ByteRange { start: 0, end: 8 },
            ByteRange { start: 8, end: 12 },
            ByteRange { start: 12, end: 20 },
        ],
        symbols: SymbolTable(vec![
            data(0, 0, 3),
            data(0, 4, 2),
            data(2, 1, 4),
            SymbolInfo::Other,
            SymbolInfo::Data { name: "undefined".to_string(), symbol: None },
            data(2, 6, 9),
        ]),
        relocations: Vec::new(),
        function_names: Vec::new(),
        start,
    };
    let mut g = DepGraph::new(9, 6);
    for (from, to) in [(2, 0), (2, 1), (2, 7), (3, 5), (3, 6), (3, 7), (4, 5), (5, 8), (8, 7)] {
        g.add_edge(f(from), f(to));
    }
    for (from, to) in [(2, 0), (3, 1), (4, 1), (4, 2), (3, 5)] {
        g.add_edge(f(from), d(to));
    }
    let points = get_split_points(&m).unwrap();
    let info = compute_split_modules(&m, &g, &points).unwrap();
    (m, info)
}

fn import(from_output: usize, func: usize) -> FunctionImport {
    FunctionImport { from_output, func }
}

#[test]
fn imports_are_ordered_by_holder_then_function() {
    let (_, info) = two_splits(None);
    let names: Vec<String> = info.output_modules.iter().map(|(id, _)| id.name()).collect();
    assert_eq!(names, vec!["main", "alpha_beta", "alpha", "beta"]);
    // Main calls the two splits through their trampolines.
    assert_eq!(function_imports(&info, 0), vec![import(2, 3), import(3, 4)]);
    // The chunk holds 5 and 8; 8 calls 7 of the main module.
    assert_eq!(function_imports(&info, 1), vec![import(0, 7)]);
    assert_eq!(function_imports(&info, 2), vec![import(0, 7), import(1, 5)]);
    assert_eq!(function_imports(&info, 3), vec![import(1, 5)]);
}

#[test]
fn split_imports_its_entry_where_another_module_holds_it() {
    let (_, mut info) = two_splits(None);
    // Move the entry of alpha out of alpha, as a chunk would hold it.
    let alpha = &mut info.output_modules[2].1;
    alpha.included_symbols.remove(f(3));
    info.output_modules[1].1.included_symbols.insert(f(3));
    info.symbol_output_module.insert(f(3), 1);
    assert_eq!(function_imports(&info, 2), vec![import(0, 7), import(1, 3), import(1, 5)]);
}

#[test]
fn new_indices_follow_imports_then_held_functions() {
    let (_, info) = two_splits(None);
    let imports = function_imports(&info, 2);
    let locals = info.output_modules[2].1.included_symbols.functions();
    assert_eq!(locals, vec![3, 6]);
    let order = function_order(&imports, &locals);
    assert_eq!(order, vec![7, 5, 3, 6]);
    assert_eq!(
        index_table(&order, 9),
        vec![None, None, None, Some(2), None, Some(1), Some(3), Some(0), None]
    );
    assert_eq!(index_table(&order, 4), vec![None, None, None, Some(2)]);
    assert_eq!(index_table(&vec![1, 0, 1], 2), vec![Some(1), Some(2)]);
    assert!(function_order(&Vec::new(), &Vec::new()).is_empty());
    assert_eq!(info.output_modules[0].1.included_symbols.data_symbols(), vec![0]);
}

#[test]
fn start_function_is_kept_where_main_holds_it() {
    let (m, info) = two_splits(Some(2));
    assert_eq!(start_function(&m, &info), Some(2));
    let (m, info) = two_splits(None);
    assert_eq!(start_function(&m, &info), None);
    let (mut m, info) = two_splits(Some(2));
    m.start = Some(6);
    assert_eq!(start_function(&m, &info), None);
}

#[test]
fn segments_with_data_symbols_are_kept() {
    let (m, info) = two_splits(None);
    let kept: Vec<Vec<usize>> = info
        .output_modules
        .iter()
        .map(|(_, out)| retained_segments(&m, &out.included_symbols))
        .collect();
    // Symbol 0 is main's, 1 is shared, 5 is alpha's, 2 is beta's.
    assert_eq!(kept, vec![vec![0], vec![0], vec![2], vec![2]]);
    assert!(retained_segments(&m, &NodeSet::new(9, 6)).is_empty());
}

#[test]
fn segment_image_keeps_held_bytes_and_zeroes_the_rest() {
    let (m, info) = two_splits(None);
    let bytes: Vec<u8> = vec![11, 12, 13, 14, 15, 16, 17, 18];
    let images: Vec<Vec<u8>> = info
        .output_modules
        .iter()
        .map(|(_, out)| segment_image(&m, &out.included_symbols, 0, &bytes))
        .collect();
    assert_eq!(images[0], vec![11, 12, 13, 0, 0, 0, 0, 0]);
    assert_eq!(images[1], vec![0, 0, 0, 0, 15, 16, 0, 0]);
    assert_eq!(images[2], vec![0; 8]);
    // Segment 2: symbol 2 covers 1..5, symbol 5 reaches beyond the end.
    let images: Vec<Vec<u8>> = info
        .output_modules
        .iter()
        .map(|(_, out)| segment_image(&m, &out.included_symbols, 2, &bytes))
        .collect();
    assert_eq!(images[3], vec![0, 12, 13, 14, 15, 0, 0, 0]);
    assert_eq!(images[2], vec![0, 0, 0, 0, 0, 0, 17, 18]);
    assert!(segment_image(&m, &info.output_modules[0].1.included_symbols, 0, &Vec::new()).is_empty());
}

#[test]
fn data_images_together_give_the_held_bytes() {
    let (m, info) = two_splits(None);
    let bytes: Vec<u8> = vec![21, 22, 23, 24, 25, 26, 27, 28];
    for segment in 0..3 {
        let mut sum = vec![0u8; 8];
        for (_, out) in info.output_modules.iter() {
            let image = segment_image(&m, &out.included_symbols, segment, &bytes);
            for pos in 0..8 {
                if image[pos] != 0 {
                    assert_eq!(sum[pos], 0);
                    sum[pos] = image[pos];
                }
            }
        }
        let expected: Vec<u8> = match segment {
            0 => vec![21, 22, 23, 0, 25, 26, 0, 0],
            1 => vec![0; 8],
            _ => vec![0, 22, 23, 24, 25, 0, 27, 28],
        };
        assert_eq!(sum, expected);
    }
}

#[test]
fn patches_are_written_over_the_body() {
    let body: Vec<u8> = (0..10).collect();
    let patch = |offset: usize, bytes: &[u8]| Patch { offset, bytes: bytes.to_vec() };
    assert_eq!(apply_patches(&body, &Vec::new()), Some(body.clone()));
    assert_eq!(
        apply_patches(&body, &vec![patch(2, &[0xaa, 0xbb]), patch(8, &[0xcc, 0xdd])]),
        Some(vec![0, 1, 0xaa, 0xbb, 4, 5, 6, 7, 0xcc, 0xdd])
    );
    // A later patch wins where two overlap.
    assert_eq!(
        apply_patches(&body, &vec![patch(1, &[1, 1, 1]), patch(2, &[2])]),
        Some(vec![0, 1, 2, 1, 4, 5, 6, 7, 8, 9])
    );
    assert_eq!(apply_patches(&body, &vec![patch(10, &[])]), Some(body.clone()));
    assert_eq!(apply_patches(&body, &vec![patch(9, &[1, 2])]), None);
    assert_eq!(apply_patches(&body, &vec![patch(usize::MAX, &[1])]), None);
}

#[test]
fn index_is_encoded_in_five_bytes() {
    assert_eq!(encode_index(0), vec![0x80, 0x80, 0x80, 0x80, 0x00]);
    assert_eq!(encode_index(1), vec![0x81, 0x80, 0x80, 0x80, 0x00]);
    assert_eq!(encode_index(127), vec![0xff, 0x80, 0x80, 0x80, 0x00]);
    assert_eq!(encode_index(128), vec![0x80, 0x81, 0x80, 0x80, 0x00]);
    assert_eq!(encode_index(624485), vec![0xe5, 0x8e, 0xa6, 0x80, 0x00]);
    assert_eq!(encode_index(u32::MAX), vec![0xff, 0xff, 0xff, 0xff, 0x0f]);
    for value in [0u32, 5, 300, 70000, 1 << 28, u32::MAX - 1] {
        let bytes = encode_index(value);
        let decoded: u64 = bytes
            .iter()
            .enumerate()
            .map(|(k, b)| ((*b & 0x7f) as u64) << (7 * k))
            .sum();
        assert_eq!(decoded, value as u64);
    }
}

fn point(import_func: usize, export_func: usize) -> SplitPoint {
    SplitPoint { module_name: "m".to_string(), import: 0, import_func, export: 0, export_func }
}

#[test]
fn calls_of_split_imports_are_calls_of_their_exports() {
    assert_eq!(call_targets(&Vec::new(), 3), vec![0, 1, 2]);
    assert_eq!(call_targets(&vec![point(0, 3), point(1, 4)], 5), vec![3, 4, 2, 3, 4]);
    // The last split point of an import stands for it; one beyond the bound is passed over.
    assert_eq!(call_targets(&vec![point(1, 2), point(1, 0), point(7, 1)], 3), vec![0, 0, 2]);
    assert!(call_targets(&vec![point(0, 1)], 0).is_empty());
}

fn reference(section_id: u32, kind: RelocKind, start: usize, end: usize, symbol: Option<usize>) -> Relocation {
    Relocation { section_id, kind, range: ByteRange { start, end }, symbol }
}

fn with_references() -> InputModule {
    let (mut m, _) = two_splits(None);
    m.symbols = SymbolTable(vec![
        SymbolInfo::Func { index: 0, name: None },
        SymbolInfo::Func { index: 7, name: None },
        data(0, 0, 3),
        SymbolInfo::Func { index: 5, name: None },
    ]);
    m.relocations = vec![
        reference(CODE_SECTION_ID, RelocKind::FunctionIndexLeb, 12, 17, Some(0)),
        reference(CODE_SECTION_ID, RelocKind::Other, 20, 25, Some(1)),
        reference(DATA_SECTION_ID, RelocKind::FunctionIndexLeb, 30, 35, Some(1)),
        reference(CODE_SECTION_ID, RelocKind::FunctionIndexLeb, 5, 10, Some(1)),
        reference(CODE_SECTION_ID, RelocKind::FunctionIndexLeb, 40, 45, Some(1)),
        reference(CODE_SECTION_ID, RelocKind::FunctionIndexLeb, 45, 50, Some(3)),
    ];
    m
}

#[test]
fn references_in_a_body_get_the_new_indices() {
    let m = with_references();
    // Function 0 is the import of a split whose export is 3.
    let targets = call_targets(&vec![point(0, 3)], 9);
    let table: Vec<Option<usize>> =
        vec![None, None, None, Some(2), None, Some(1), Some(3), Some(300), None];
    let body = ByteRange { start: 10, end: 50 };
    let (patches, sources) = reference_patches(&m, body, &targets, &table).unwrap();
    assert_eq!(sources, vec![0, 4, 5]);
    assert_eq!(
        patches,
        vec![
            Patch { offset: 2, bytes: vec![0x82, 0x80, 0x80, 0x80, 0x00] },
            Patch { offset: 30, bytes: vec![0xac, 0x82, 0x80, 0x80, 0x00] },
            Patch { offset: 35, bytes: vec![0x81, 0x80, 0x80, 0x80, 0x00] },
        ]
    );
    let bytes: Vec<u8> = (0..40).collect();
    let patched = apply_patches(&bytes, &patches).unwrap();
    assert_eq!(&patched[..2], &bytes[..2]);
    assert_eq!(&patched[2..7], &[0x82, 0x80, 0x80, 0x80, 0x00]);
    assert_eq!(&patched[7..30], &bytes[7..30]);
    assert_eq!(&patched[30..35], &[0xac, 0x82, 0x80, 0x80, 0x00]);
    let none = reference_patches(&m, ByteRange { start: 60, end: 90 }, &targets, &table).unwrap();
    assert!(none.0.is_empty() && none.1.is_empty());
}

#[test]
fn references_that_cannot_be_written_are_errors() {
    let m = with_references();
    let targets = call_targets(&Vec::new(), 9);
    let table: Vec<Option<usize>> = vec![Some(0), None, None, None, None, Some(1), None, Some(2), None];
    let body = ByteRange { start: 0, end: 100 };
    assert!(reference_patches(&m, body, &targets, &table).is_ok());
    let mut short = with_references();
    short.relocations[3].range.end = 9;
    assert_eq!(
        reference_patches(&short, body, &targets, &table).err(),
        Some(EmitError::BadWidth { relocation: 3 })
    );
    let mut no_symbol = with_references();
    no_symbol.relocations[0].symbol = None;
    no_symbol.relocations[4].symbol = Some(2);
    assert_eq!(
        reference_patches(&no_symbol, body, &targets, &table).err(),
        Some(EmitError::NoFunctionSymbol { relocation: 0 })
    );
    no_symbol.relocations[0].symbol = Some(9);
    assert_eq!(
        reference_patches(&no_symbol, body, &targets, &table).err(),
        Some(EmitError::NoFunctionSymbol { relocation: 0 })
    );
    no_symbol.relocations[0].symbol = Some(0);
    assert_eq!(
        reference_patches(&no_symbol, body, &targets, &table).err(),
        Some(EmitError::NoFunctionSymbol { relocation: 4 })
    );
    let missing: Vec<Option<usize>> = vec![Some(0), None, None, None, None, None, None, Some(2), None];
    assert_eq!(
        reference_patches(&m, body, &targets, &missing).err(),
        Some(EmitError::NoIndex { func: 5 })
    );
    let huge: Vec<Option<usize>> = vec![Some(usize::MAX), None, None, None, None, Some(1), None, Some(2), None];
    if usize::MAX as u64 > u32::MAX as u64 {
        assert_eq!(
            reference_patches(&m, body, &targets, &huge).err(),
            Some(EmitError::NoIndex { func: 0 })
        );
    }
    assert_eq!(
        reference_patches(&m, body, &Vec::new(), &table).err(),
        Some(EmitError::NoIndex { func: 0 })
    );
}
