use wasm_split_cli::graph::DepGraph;
use wasm_split_cli::layout::SplitProgramInfo;
use wasm_split_cli::listing::{print_deps, ListedFunction};
use wasm_split_cli::loader::{loader_manifest, LoaderEntry, LoaderManifest, LOADER_PREAMBLE};
use wasm_split_cli::nodes::{DepNode, NodeMap, NodeSet};
use wasm_split_cli::partition::compute_split_modules;
use wasm_split_cli::reach::find_reachable_deps;
use wasm_split_cli::read::{
    ByteRange, ExternalKind, Export, Import, InputModule, SymbolTable,
};
use wasm_split_cli::split_point::get_split_points;

const ID_A: &str = "0123456789abcdef0123456789abcdef";
const ID_B: &str = "fedcba9876543210fedcba9876543210";

fn f(i: usize) -> DepNode {
    DepNode::Function(i)
}

fn two_splits() -> (InputModule, DepGraph) {
    let import = |name: String| Import { module: "env".to_string(), name, kind: ExternalKind::Func };
    let export = |name: String, index: u32| Export { name, kind: ExternalKind::Func, index };
    let m = InputModule {
        imports: vec![
            import(format!("__wasm_split_00alpha00_import_{ID_A}")),
            import(format!("__wasm_split_00beta00_import_{ID_B}")),
        ],
        exports: vec![
            export("main_entry".to_string(), 2),
            export(format!("__wasm_split_00alpha00_export_{ID_A}"), 3),
            export(format!("__wasm_split_00beta00_export_{ID_B}"), 4),
        ],
        defined_funcs: vec![
            ByteRange { start: 0, end: 10 },
            ByteRange { start: 10, end: 25 },
            ByteRange { start: 25, end: 26 },
            ByteRange { start: 26, end: 126 },
            ByteRange { start: 126, end: 130 },
            ByteRange { start: 130, end: 137 },
        ],
        data_segment_ranges: Vec::new(),
        symbols: SymbolTable(Vec::new()),
        relocations: Vec::new(),
        function_names: vec![None, None, Some("main_entry".to_string()), Some("alpha".to_string())],
        start: None,
    };
    let mut g = DepGraph::new(8, 0);
    for (from, to) in [(2, 0), (2, 1), (2, 7), (3, 5), (3, 6), (3, 7), (4, 5), (6, 5)] {
        g.add_edge(f(from), f(to));
    }
    (m, g)
}

fn partition() -> (InputModule, SplitProgramInfo) {
    let (m, g) = two_splits();
    let points = get_split_points(&m).unwrap();
    let info = compute_split_modules(&m, &g, &points).unwrap();
    (m, info)
}

#[test]
fn listing_gives_sizes_and_parent_chains() {
    let (m, info) = partition();
    let (id, alpha) = &info.output_modules[2];
    let listing = alpha.print(&id.name(), &m);
    assert_eq!(listing.module_name, "alpha");
    assert_eq!(
        listing.functions,
        vec![
            ListedFunction { func: 3, name: Some("alpha".to_string()), size: 15, chain: vec![] },
            ListedFunction { func: 6, name: None, size: 4, chain: vec![f(3)] },
        ]
    );
    assert_eq!(listing.total_size, 19);
    let (id, main) = &info.output_modules[0];
    let listing = main.print(&id.name(), &m);
    assert_eq!(
        listing.functions,
        vec![
            ListedFunction { func: 2, name: Some("main_entry".to_string()), size: 10, chain: vec![] },
            ListedFunction { func: 7, name: None, size: 7, chain: vec![f(2)] },
        ]
    );
    assert_eq!(listing.total_size, 17);
}

#[test]
fn listing_totals_are_sums_of_the_sizes() {
    let (m, info) = partition();
    for (id, out) in info.output_modules.iter() {
        let listing = out.print(&id.name(), &m);
        let sum: usize = listing.functions.iter().map(|f| f.size).sum();
        assert_eq!(listing.total_size, sum);
        let funcs: Vec<usize> = listing.functions.iter().map(|f| f.func).collect();
        let held: Vec<usize> =
            (0..8).filter(|i| out.included_symbols.contains(f(*i))).collect();
        assert_eq!(funcs, held);
    }
}

#[test]
fn imported_functions_have_no_size() {
    let (m, g) = two_splits();
    let mut roots = NodeSet::new(8, 0);
    roots.insert(f(2));
    let reached = find_reachable_deps(&g, &roots, &NodeSet::new(8, 0));
    let listing = reached.print("all", &m);
    let sizes: Vec<(usize, usize)> = listing.functions.iter().map(|f| (f.func, f.size)).collect();
    assert_eq!(sizes, vec![(0, 0), (1, 0), (2, 10), (7, 7)]);
    assert_eq!(listing.total_size, 17);
    assert_eq!(listing.functions[0].chain, vec![f(2)]);
}

#[test]
fn total_size_stops_at_the_largest_number() {
    let mut m = two_splits().0;
    m.imports.clear();
    m.defined_funcs = vec![
        ByteRange { start: 0, end: usize::MAX },
        ByteRange { start: 0, end: usize::MAX },
    ];
    let mut set = NodeSet::new(2, 0);
    set.insert(f(0));
    set.insert(f(1));
    let listing = print_deps("big", &m, &set, &NodeMap::new(2, 0));
    assert_eq!(listing.total_size, usize::MAX);
}

#[test]
fn parent_chain_ends_after_as_many_steps_as_there_are_nodes() {
    let m = two_splits().0;
    let mut parents: NodeMap<DepNode> = NodeMap::new(3, 0);
    parents.insert(f(0), f(1));
    parents.insert(f(1), f(0));
    let mut set = NodeSet::new(3, 0);
    set.insert(f(0));
    let listing = print_deps("loop", &m, &set, &parents);
    assert_eq!(listing.functions[0].chain, vec![f(1), f(0), f(1)]);
}

#[test]
fn loader_declares_chunks_before_splits() {
    let (_, info) = partition();
    let manifest = loader_manifest(&info.output_modules);
    assert_eq!(
        manifest,
        LoaderManifest {
            chunks: vec!["alpha_beta".to_string()],
            splits: vec![
                LoaderEntry { name: "beta".to_string(), deps: vec!["alpha_beta".to_string()] },
                LoaderEntry { name: "alpha".to_string(), deps: vec!["alpha_beta".to_string()] },
            ],
        }
    );
}

#[test]
fn loader_script_text() {
    let (_, info) = partition();
    let script = loader_manifest(&info.output_modules).script();
    let expected = format!(
        "{}{}{}{}",
        LOADER_PREAMBLE,
        "const __wasm_split_load_alpha_beta = makeLoad(new URL(\"./alpha_beta.wasm\", import.meta.url), []);\n",
        "export const __wasm_split_load_beta = makeLoad(new URL(\"./beta.wasm\", import.meta.url), [__wasm_split_load_alpha_beta]);\n",
        "export const __wasm_split_load_alpha = makeLoad(new URL(\"./alpha.wasm\", import.meta.url), [__wasm_split_load_alpha_beta]);\n",
    );
    assert_eq!(script, expected);
    assert!(script.starts_with("import { initSync } from \"./main.js\";\nfunction makeLoad(url, deps) {\n"));
}

#[test]
fn loader_without_splits_declares_nothing() {
    let (mut m, g) = two_splits();
    m.imports.clear();
    m.exports.truncate(1);
    let info = compute_split_modules(&m, &g, &Vec::new()).unwrap();
    let manifest = loader_manifest(&info.output_modules);
    assert!(manifest.chunks.is_empty());
    assert!(manifest.splits.is_empty());
    assert_eq!(manifest.script(), LOADER_PREAMBLE);
}

#[test]
fn each_split_lists_exactly_its_chunks() {
    let manifest = LoaderManifest {
        chunks: vec!["a_b".to_string(), "a_b_c".to_string()],
        splits: vec![
            LoaderEntry { name: "c".to_string(), deps: vec!["a_b_c".to_string()] },
            LoaderEntry { name: "a".to_string(), deps: vec!["a_b".to_string(), "a_b_c".to_string()] },
            LoaderEntry { name: "d".to_string(), deps: vec![] },
        ],
    };
    let script = manifest.script();
    let tail = &script[LOADER_PREAMBLE.len()..];
    let lines: Vec<&str> = tail.lines().collect();
    assert_eq!(lines.len(), 5);
    assert_eq!(
        lines[3],
        "export const __wasm_split_load_a = makeLoad(new URL(\"./a.wasm\", import.meta.url), [__wasm_split_load_a_b, __wasm_split_load_a_b_c]);"
    );
    assert_eq!(
        lines[4],
        "export const __wasm_split_load_d = makeLoad(new URL(\"./d.wasm\", import.meta.url), []);"
    );
}
