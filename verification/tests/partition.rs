use wasm_split_cli::graph::DepGraph;
use wasm_split_cli::identifier::SplitModuleIdentifier;
use wasm_split_cli::layout::SplitProgramInfo;
use wasm_split_cli::nodes::{DepNode, NodeSet};
use wasm_split_cli::groups::get_split_points_by_module;
use wasm_split_cli::partition::compute_split_modules;
use wasm_split_cli::roots::get_main_module_roots;
use wasm_split_cli::read::{ExternalKind, Export, Import, InputModule, SymbolTable};
use wasm_split_cli::split_point::{get_split_points, SplitError, SplitPoint};

const ID_A: &str = "0123456789abcdef0123456789abcdef";
const ID_B: &str = "fedcba9876543210fedcba9876543210";

fn func_import(name: &str) -> Import {
    Import { module: "env".to_string(), name: name.to_string(), kind: ExternalKind::Func }
}

fn func_export(name: &str, index: u32) -> Export {
    Export { name: name.to_string(), kind: ExternalKind::Func, index }
}

fn module(imports: Vec<Import>, exports: Vec<Export>, start: Option<usize>) -> InputModule {
    InputModule {
        imports,
        exports,
        defined_funcs: Vec::new(),
        data_segment_ranges: Vec::new(),
        symbols: SymbolTable(Vec::new()),
        relocations: Vec::new(),
        function_names: Vec::new(),
        start,
    }
}

fn graph(funcs: usize, data: usize, edges: &[(DepNode, DepNode)]) -> DepGraph {
    let mut g = DepGraph::new(funcs, data);
    for (from, to) in edges {
        g.add_edge(*from, *to);
    }
    g
}

fn f(i: usize) -> DepNode {
    DepNode::Function(i)
}

fn d(i: usize) -> DepNode {
    DepNode::DataSymbol(i)
}

fn members(set: &NodeSet, funcs: usize, data: usize) -> Vec<DepNode> {
    let mut out = Vec::new();
    for i in 0..funcs {
        if set.contains(f(i)) {
            out.push(f(i));
        }
    }
    for i in 0..data {
        if set.contains(d(i)) {
            out.push(d(i));
        }
    }
    out
}

fn names(info: &SplitProgramInfo) -> Vec<String> {
    info.output_modules.iter().map(|(id, _)| id.name()).collect()
}

/// Two splits, `alpha` and `beta`, that share the helper 5 and the data
/// symbol 0; functions 0 and 1 are the split imports.
fn two_splits() -> (InputModule, DepGraph) {
    let m = module(
        vec![
            func_import(&format!("__wasm_split_00alpha00_import_{ID_A}")),
            func_import(&format!("__wasm_split_00beta00_import_{ID_B}")),
        ],
        vec![
            func_export("main_entry", 2),
            func_export(&format!("__wasm_split_00alpha00_export_{ID_A}"), 3),
            func_export(&format!("__wasm_split_00beta00_export_{ID_B}"), 4),
        ],
        None,
    );
    let g = graph(
        8,
        2,
        &[
            (f(2), f(0)),
            (f(2), f(1)),
            (f(2), f(7)),
            (f(2), d(1)),
            (f(3), f(5)),
            (f(3), f(6)),
            (f(3), f(7)),
            (f(3), d(0)),
            (f(4), f(5)),
            (f(4), d(0)),
        ],
    );
    (m, g)
}

#[test]
fn no_split_points_gives_main_only() {
    let m = module(vec![func_import("log")], vec![func_export("run", 1)], Some(2));
    let g = graph(4, 1, &[(f(1), f(0)), (f(1), d(0)), (f(2), f(1)), (d(0), f(3))]);
    let points = get_split_points(&m).unwrap();
    assert!(points.is_empty());
    let info = compute_split_modules(&m, &g, &points).unwrap();
    assert_eq!(names(&info), vec!["main".to_string()]);
    let main = &info.output_modules[0].1;
    assert_eq!(members(&main.included_symbols, 4, 1), vec![f(0), f(1), f(2), f(3), d(0)]);
    assert!(main.shared_imports.is_empty());
    assert!(main.split_points.is_empty());
    assert!(info.shared_funcs.is_empty());
    assert_eq!(info.symbol_output_module.get(d(0)), Some(0));
}

#[test]
fn single_split_without_shared_code() {
    let m = module(
        vec![
            func_import(&format!("__wasm_split_00alpha00_import_{ID_A}")),
            func_import(&format!("__wasm_split_00alpha00_import_{ID_B}")),
        ],
        vec![
            func_export("main_entry", 2),
            func_export(&format!("__wasm_split_00alpha00_export_{ID_A}"), 3),
            func_export(&format!("__wasm_split_00alpha00_export_{ID_B}"), 4),
        ],
        None,
    );
    let g = graph(
        7,
        0,
        &[(f(2), f(0)), (f(2), f(1)), (f(2), f(6)), (f(3), f(5)), (f(4), f(5)), (f(4), f(6))],
    );
    let points = get_split_points(&m).unwrap();
    assert_eq!(points.len(), 2);
    let info = compute_split_modules(&m, &g, &points).unwrap();
    assert_eq!(names(&info), vec!["main".to_string(), "alpha".to_string()]);
    let main = &info.output_modules[0].1;
    let alpha = &info.output_modules[1].1;
    assert_eq!(members(&main.included_symbols, 7, 0), vec![f(2), f(6)]);
    assert_eq!(members(&alpha.included_symbols, 7, 0), vec![f(3), f(4), f(5)]);
    // Only the helper that the main module holds is imported.
    assert_eq!(alpha.shared_imports, vec![6]);
    assert_eq!(main.shared_imports, vec![3, 4]);
    assert_eq!(alpha.split_points, points);
    assert_eq!(info.shared_funcs, vec![3, 4, 6]);
}

#[test]
fn two_splits_share_a_helper() {
    let (m, g) = two_splits();
    let points = get_split_points(&m).unwrap();
    let info = compute_split_modules(&m, &g, &points).unwrap();
    assert_eq!(
        names(&info),
        vec!["main".to_string(), "alpha_beta".to_string(), "alpha".to_string(), "beta".to_string()]
    );
    assert_eq!(
        info.output_modules[1].0,
        SplitModuleIdentifier::Chunk(vec!["alpha".to_string(), "beta".to_string()])
    );
    let sets: Vec<Vec<DepNode>> = info
        .output_modules
        .iter()
        .map(|(_, out)| members(&out.included_symbols, 8, 2))
        .collect();
    assert_eq!(sets[0], vec![f(2), f(7), d(1)]);
    assert_eq!(sets[1], vec![f(5), d(0)]);
    assert_eq!(sets[2], vec![f(3), f(6)]);
    assert_eq!(sets[3], vec![f(4)]);
    assert_eq!(info.output_modules[0].1.shared_imports, vec![3, 4]);
    assert!(info.output_modules[1].1.shared_imports.is_empty());
    assert_eq!(info.output_modules[2].1.shared_imports, vec![5, 7]);
    assert_eq!(info.output_modules[3].1.shared_imports, vec![5]);
    assert_eq!(info.shared_funcs, vec![3, 4, 5, 7]);
    assert_eq!(info.output_index(&SplitModuleIdentifier::Main), Some(0));
    assert_eq!(info.output_index(&SplitModuleIdentifier::Split("beta".to_string())), Some(3));
    assert_eq!(
        info.output_index(&SplitModuleIdentifier::Chunk(vec!["alpha".into(), "beta".into()])),
        Some(1)
    );
    assert_eq!(info.output_index(&SplitModuleIdentifier::Split("gamma".to_string())), None);
}

#[test]
fn shared_data_symbol_goes_to_the_chunk() {
    let (m, g) = two_splits();
    let points = get_split_points(&m).unwrap();
    let info = compute_split_modules(&m, &g, &points).unwrap();
    assert_eq!(info.symbol_output_module.get(d(0)), Some(1));
    assert_eq!(info.symbol_output_module.get(d(1)), Some(0));
    assert!(info.output_modules[1].1.included_symbols.contains(d(0)));
    assert!(!info.output_modules[2].1.included_symbols.contains(d(0)));
    assert!(!info.output_modules[3].1.included_symbols.contains(d(0)));
    assert!(!info.output_modules[0].1.included_symbols.contains(d(0)));
}

#[test]
fn every_reached_node_is_in_exactly_one_output() {
    let (m, g) = two_splits();
    let points = get_split_points(&m).unwrap();
    let info = compute_split_modules(&m, &g, &points).unwrap();
    for node in [f(2), f(3), f(4), f(5), f(6), f(7), d(0), d(1)] {
        let holders: Vec<usize> = (0..info.output_modules.len())
            .filter(|i| info.output_modules[*i].1.included_symbols.contains(node))
            .collect();
        assert_eq!(holders.len(), 1, "{node:?}");
        assert_eq!(info.symbol_output_module.get(node), Some(holders[0]));
    }
    // The split imports are in no output module.
    for node in [f(0), f(1)] {
        assert_eq!(info.symbol_output_module.get(node), None);
    }
}

#[test]
fn main_is_disjoint_from_the_others() {
    let (m, g) = two_splits();
    let points = get_split_points(&m).unwrap();
    let info = compute_split_modules(&m, &g, &points).unwrap();
    let main = &info.output_modules[0].1.included_symbols;
    for (_, out) in info.output_modules.iter().skip(1) {
        for node in members(&out.included_symbols, 8, 2) {
            assert!(!main.contains(node));
        }
    }
}

#[test]
fn imports_of_the_others_are_exported_by_main() {
    let (m, g) = two_splits();
    let points = get_split_points(&m).unwrap();
    let info = compute_split_modules(&m, &g, &points).unwrap();
    for (_, out) in info.output_modules.iter() {
        for func in out.shared_imports.iter() {
            assert!(info.shared_funcs.contains(func));
        }
        for point in out.split_points.iter() {
            assert!(info.shared_funcs.contains(&point.export_func));
        }
    }
}

#[test]
fn no_output_holds_or_imports_a_split_import() {
    let (m, g) = two_splits();
    let points = get_split_points(&m).unwrap();
    let info = compute_split_modules(&m, &g, &points).unwrap();
    for (_, out) in info.output_modules.iter() {
        for point in points.iter() {
            assert!(!out.included_symbols.contains(f(point.import_func)));
            assert!(!out.shared_imports.contains(&point.import_func));
        }
    }
    assert!(!info.shared_funcs.contains(&0));
    assert!(!info.shared_funcs.contains(&1));
}

#[test]
fn two_runs_give_the_same_partition() {
    let (m, g) = two_splits();
    let points = get_split_points(&m).unwrap();
    let a = compute_split_modules(&m, &g, &points).unwrap();
    let b = compute_split_modules(&m, &g, &points).unwrap();
    assert_eq!(names(&a), names(&b));
    assert_eq!(a.shared_funcs, b.shared_funcs);
    for i in 0..a.output_modules.len() {
        assert_eq!(a.output_modules[i].0, b.output_modules[i].0);
        assert_eq!(
            members(&a.output_modules[i].1.included_symbols, 8, 2),
            members(&b.output_modules[i].1.included_symbols, 8, 2)
        );
        assert_eq!(a.output_modules[i].1.shared_imports, b.output_modules[i].1.shared_imports);
        assert_eq!(a.output_modules[i].1.split_points, b.output_modules[i].1.split_points);
    }
}

#[test]
fn split_export_held_by_main_stays_in_main() {
    // The main entry calls the implementation of the split directly.
    let m = module(
        vec![func_import(&format!("__wasm_split_00alpha00_import_{ID_A}"))],
        vec![
            func_export("main_entry", 1),
            func_export(&format!("__wasm_split_00alpha00_export_{ID_A}"), 2),
        ],
        None,
    );
    let g = graph(4, 0, &[(f(1), f(2)), (f(2), f(3))]);
    let points = get_split_points(&m).unwrap();
    let info = compute_split_modules(&m, &g, &points).unwrap();
    assert_eq!(names(&info), vec!["main".to_string(), "alpha".to_string()]);
    assert_eq!(members(&info.output_modules[0].1.included_symbols, 4, 0), vec![f(1), f(2), f(3)]);
    assert!(members(&info.output_modules[1].1.included_symbols, 4, 0).is_empty());
    assert_eq!(info.output_modules[1].1.split_points.len(), 1);
    assert_eq!(info.shared_funcs, vec![2]);
}

#[test]
fn three_splits_make_separate_chunks() {
    let points = vec![
        SplitPoint { module_name: "c".into(), import: 0, import_func: 0, export: 0, export_func: 3 },
        SplitPoint { module_name: "a".into(), import: 1, import_func: 1, export: 1, export_func: 4 },
        SplitPoint { module_name: "b".into(), import: 2, import_func: 2, export: 2, export_func: 5 },
    ];
    let m = module(Vec::new(), Vec::new(), None);
    // 6 is shared by a and b, 7 by all three, 8 by b and c.
    let g = graph(
        9,
        0,
        &[
            (f(4), f(6)),
            (f(5), f(6)),
            (f(3), f(7)),
            (f(4), f(7)),
            (f(5), f(7)),
            (f(5), f(8)),
            (f(3), f(8)),
        ],
    );
    let info = compute_split_modules(&m, &g, &points).unwrap();
    assert_eq!(
        names(&info),
        vec!["main", "a_b", "a_b_c", "b_c", "a", "b", "c"]
            .into_iter()
            .map(String::from)
            .collect::<Vec<_>>()
    );
    assert_eq!(members(&info.output_modules[1].1.included_symbols, 9, 0), vec![f(6)]);
    assert_eq!(members(&info.output_modules[2].1.included_symbols, 9, 0), vec![f(7)]);
    assert_eq!(members(&info.output_modules[3].1.included_symbols, 9, 0), vec![f(8)]);
    assert_eq!(members(&info.output_modules[4].1.included_symbols, 9, 0), vec![f(4)]);
    assert_eq!(members(&info.output_modules[5].1.included_symbols, 9, 0), vec![f(5)]);
    assert_eq!(members(&info.output_modules[6].1.included_symbols, 9, 0), vec![f(3)]);
    assert!(members(&info.output_modules[0].1.included_symbols, 9, 0).is_empty());
}

#[test]
fn function_out_of_range_is_an_error() {
    let m = module(Vec::new(), vec![func_export("run", 9)], None);
    let g = graph(2, 0, &[]);
    let err = compute_split_modules(&m, &g, &Vec::new()).err().unwrap();
    assert_eq!(err, SplitError::FunctionOutOfRange { func: 9 });
    let points = vec![SplitPoint {
        module_name: "a".into(),
        import: 0,
        import_func: 0,
        export: 0,
        export_func: 5,
    }];
    let m = module(Vec::new(), Vec::new(), None);
    let err = compute_split_modules(&m, &g, &points).err().unwrap();
    assert_eq!(err, SplitError::FunctionOutOfRange { func: 5 });
}

#[test]
fn main_roots_leave_out_split_functions() {
    let (m, g) = two_splits();
    let points = get_split_points(&m).unwrap();
    let roots = get_main_module_roots(&m, &g, &points).unwrap();
    assert_eq!(members(&roots, 8, 2), vec![f(2)]);
    let roots = get_main_module_roots(&m, &g, &Vec::new()).unwrap();
    assert_eq!(members(&roots, 8, 2), vec![f(0), f(1), f(2), f(3), f(4)]);
    let with_start = module(Vec::new(), Vec::new(), Some(6));
    let roots = get_main_module_roots(&with_start, &g, &Vec::new()).unwrap();
    assert_eq!(members(&roots, 8, 2), vec![f(6)]);
}

#[test]
fn groups_are_in_ascending_order_of_names() {
    let point = |name: &str, i: usize| SplitPoint {
        module_name: name.to_string(),
        import: i,
        import_func: i,
        export: i,
        export_func: 10 + i,
    };
    let points =
        vec![point("beta", 0), point("alpha", 1), point("beta", 2), point("Zeta", 3), point("alpha", 4)];
    let groups = get_split_points_by_module(&points);
    let summary: Vec<(String, Vec<usize>)> =
        groups.iter().map(|g| (g.module_name.clone(), g.members.clone())).collect();
    assert_eq!(
        summary,
        vec![
            ("Zeta".to_string(), vec![3]),
            ("alpha".to_string(), vec![1, 4]),
            ("beta".to_string(), vec![0, 2]),
        ]
    );
    assert!(get_split_points_by_module(&Vec::new()).is_empty());
}

#[test]
fn the_first_function_out_of_range_is_named() {
    let point = |import_func: usize, export_func: usize| SplitPoint {
        module_name: "a".into(),
        import: 0,
        import_func,
        export: 0,
        export_func,
    };
    let g = graph(3, 0, &[]);
    let fails = |m: &InputModule, points: &Vec<SplitPoint>| {
        compute_split_modules(m, &g, points).err()
    };
    let out_of_range = |func: usize| Some(SplitError::FunctionOutOfRange { func });
    // The split points come first, in their order, the import before the export.
    let m = module(vec![func_import("a")], vec![func_export("run", 9)], Some(7));
    assert_eq!(fails(&m, &vec![point(0, 1), point(0, 5), point(6, 4)]), out_of_range(5));
    assert_eq!(fails(&m, &vec![point(8, 5), point(6, 4)]), out_of_range(8));
    // Then the start function, the exports in their order and the imports.
    assert_eq!(fails(&m, &vec![point(0, 1)]), out_of_range(7));
    let m = module(vec![func_import("a")], vec![func_export("x", 2), func_export("run", 9)], None);
    assert_eq!(fails(&m, &Vec::new()), out_of_range(9));
    assert_eq!(get_main_module_roots(&m, &g, &Vec::new()).err(), out_of_range(9));
    let imports = vec![func_import("a"), func_import("b"), func_import("c"), func_import("d")];
    let m = module(imports, vec![func_export("x", 2)], Some(1));
    assert_eq!(fails(&m, &Vec::new()), out_of_range(3));
}
