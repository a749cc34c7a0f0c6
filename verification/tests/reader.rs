use wasm_split_cli::module_info::{
    find_linking_section, find_symbol_table, get_data_segment_ranges, get_dependencies, the_only,
    LinkingKind, ModuleInfo, ReadError, SymbolRangeInfo,
};
use wasm_split_cli::identifier::SplitModuleIdentifier;
use wasm_split_cli::nodes::DepNode;
use wasm_split_cli::partition::split_module;
use wasm_split_cli::ranges::{entry_before, sort_entries, RangeEntry, RangeTable};
use wasm_split_cli::read::{
    function_name_table, next_section_position, relocation_section_id, relocation_symbol,
    PayloadKind, ByteRange, DefinedDataSymbol, Export, ExternalKind,
    Import, InputModule, RelocKind, Relocation, SymbolInfo, SymbolTable, CODE_SECTION_ID,
    DATA_SECTION_ID,
};

fn range(start: usize, end: usize) -> ByteRange {
    ByteRange { start, end }
}

fn entry(id: usize, start: usize, end: usize) -> RangeEntry {
    RangeEntry { id, range: range(start, end) }
}

fn func_symbol(index: u32) -> SymbolInfo {
    SymbolInfo::Func { index, name: None }
}

fn data_symbol(index: u32, offset: u32, size: u32) -> SymbolInfo {
    SymbolInfo::Data {
        name: "d".to_string(),
        symbol: Some(DefinedDataSymbol { index, offset, size }),
    }
}

fn reloc(section_id: u32, start: usize, end: usize, symbol: Option<usize>) -> Relocation {
    Relocation { section_id, kind: RelocKind::Other, range: range(start, end), symbol }
}

/// One imported function, three defined ones, two data segments, and
/// symbols for all of them.
fn sample() -> InputModule {
    InputModule {
        imports: vec![Import {
            module: "env".to_string(),
            name: "log".to_string(),
            kind: ExternalKind::Func,
        }],
        exports: Vec::new(),
        defined_funcs: vec![range(10, 20), range(20, 45), range(45, 50)],
        data_segment_ranges: vec![range(4, 24), range(30, 40)],
        symbols: SymbolTable(vec![
            func_symbol(0),
            func_symbol(1),
            func_symbol(2),
            func_symbol(3),
            data_symbol(0, 0, 8),
            data_symbol(0, 8, 12),
            data_symbol(1, 2, 6),
            SymbolInfo::Data { name: "undefined".to_string(), symbol: None },
            SymbolInfo::Other,
            func_symbol(2),
        ]),
        relocations: vec![
            reloc(CODE_SECTION_ID, 12, 17, Some(0)),
            reloc(CODE_SECTION_ID, 21, 26, Some(3)),
            reloc(CODE_SECTION_ID, 30, 35, Some(5)),
            reloc(CODE_SECTION_ID, 30, 35, Some(5)),
            reloc(DATA_SECTION_ID, 14, 18, Some(1)),
            reloc(DATA_SECTION_ID, 32, 36, Some(4)),
            reloc(CODE_SECTION_ID, 46, 47, Some(8)),
            reloc(CODE_SECTION_ID, 46, 47, Some(7)),
            reloc(CODE_SECTION_ID, 47, 48, None),
            reloc(7, 0, 1000, Some(99)),
        ],
        function_names: Vec::new(),
        start: None,
    }
}

#[test]
fn entries_are_sorted_by_start_end_and_index() {
    let sorted = sort_entries(&vec![
        entry(0, 30, 40),
        entry(1, 10, 20),
        entry(2, 10, 15),
        entry(4, 10, 15),
        entry(3, 10, 15),
        entry(5, 0, 50),
    ]);
    assert_eq!(
        sorted,
        vec![
            entry(5, 0, 50),
            entry(2, 10, 15),
            entry(3, 10, 15),
            entry(4, 10, 15),
            entry(1, 10, 20),
            entry(0, 30, 40),
        ]
    );
    assert!(sort_entries(&Vec::new()).is_empty());
    assert!(entry_before(&entry(1, 5, 9), &entry(0, 5, 10)));
    assert!(entry_before(&entry(1, 5, 9), &entry(1, 5, 9)));
    assert!(!entry_before(&entry(2, 5, 9), &entry(1, 5, 9)));
}

#[test]
fn table_finds_the_first_containing_range() {
    let table = RangeTable::build(&vec![entry(7, 20, 30), entry(3, 0, 10), entry(5, 10, 20)]).unwrap();
    assert_eq!(table.len(), 3);
    assert_eq!(table.get(0), entry(3, 0, 10));
    assert_eq!(table.get(2), entry(7, 20, 30));
    assert_eq!(table.find_containing(&range(0, 10)), Some(0));
    assert_eq!(table.find_containing(&range(12, 13)), Some(1));
    assert_eq!(table.find_containing(&range(20, 20)), Some(1));
    assert_eq!(table.find_containing(&range(29, 30)), Some(2));
    assert_eq!(table.find_containing(&range(9, 11)), None);
    assert_eq!(table.find_containing(&range(29, 31)), None);
    assert_eq!(table.find_containing(&range(40, 41)), None);
    let empty = RangeTable::build(&Vec::new()).unwrap();
    assert_eq!(empty.find_containing(&range(0, 0)), None);
}

#[test]
fn table_refuses_a_range_that_reaches_beyond_a_later_one() {
    assert!(RangeTable::build(&vec![entry(0, 0, 30), entry(1, 5, 10)]).is_none());
    assert!(RangeTable::build(&vec![entry(0, 0, 10), entry(1, 5, 15)]).is_some());
    assert!(RangeTable::build(&vec![entry(0, 5, 5), entry(1, 5, 9)]).is_some());
}

#[test]
fn ranges_are_looked_up_by_kind() {
    let m = sample();
    let info = SymbolRangeInfo::new(&m).unwrap();
    assert_eq!(info.find_function_containing_range(range(21, 26)), Ok(2));
    assert_eq!(info.find_function_containing_range(range(45, 50)), Ok(3));
    assert_eq!(
        info.find_function_containing_range(range(19, 21)),
        Err(ReadError::NoFunctionForRange { range: range(19, 21) })
    );
    assert_eq!(info.find_data_segment_containing_range(range(30, 31)), Ok(1));
    assert_eq!(
        info.find_data_segment_containing_range(range(25, 26)),
        Err(ReadError::NoDataSegmentForRange { range: range(25, 26) })
    );
    // Symbol 5 lies at offset 8 of segment 0, which starts at 4.
    assert_eq!(info.find_data_symbol_containing_range(range(12, 24)), Ok(5));
    assert_eq!(info.find_data_symbol_containing_range(range(5, 9)), Ok(4));
    assert_eq!(info.find_data_symbol_containing_range(range(32, 38)), Ok(6));
    assert_eq!(
        info.find_data_symbol_containing_range(range(30, 33)),
        Err(ReadError::NoDataSymbolForRange { range: range(30, 33) })
    );
}

#[test]
fn relocations_give_the_edges() {
    let info = ModuleInfo::new(sample()).unwrap();
    let g = &info.dep_graph;
    assert_eq!(g.func_count(), 4);
    assert_eq!(g.data_count(), 10);
    assert_eq!(g.get(DepNode::Function(1)), Some(&vec![DepNode::Function(0)]));
    assert_eq!(
        g.get(DepNode::Function(2)),
        Some(&vec![DepNode::Function(3), DepNode::DataSymbol(5)])
    );
    assert_eq!(g.get(DepNode::Function(3)), Some(&vec![DepNode::DataSymbol(7)]));
    assert_eq!(g.get(DepNode::DataSymbol(5)), Some(&vec![DepNode::Function(1)]));
    assert_eq!(g.get(DepNode::DataSymbol(6)), Some(&vec![DepNode::DataSymbol(4)]));
    assert_eq!(g.get(DepNode::Function(0)), Some(&Vec::new()));
    assert_eq!(info.func_symbols, vec![Some(0), Some(1), Some(9), Some(3)]);
    assert_eq!(info.module.relocations.len(), 10);
}

#[test]
fn unresolved_relocations_are_errors() {
    let mut m = sample();
    m.relocations.insert(1, reloc(CODE_SECTION_ID, 5, 9, Some(0)));
    assert_eq!(
        ModuleInfo::new(m).err(),
        Some(ReadError::NoFunctionForRange { range: range(5, 9) })
    );
    let mut m = sample();
    m.relocations[4] = reloc(DATA_SECTION_ID, 25, 26, Some(0));
    assert_eq!(
        ModuleInfo::new(m).err(),
        Some(ReadError::NoDataSegmentForRange { range: range(25, 26) })
    );
    let mut m = sample();
    m.relocations[4] = reloc(DATA_SECTION_ID, 38, 39, Some(0));
    assert_eq!(
        ModuleInfo::new(m).err(),
        Some(ReadError::NoDataSymbolForRange { range: range(38, 39) })
    );
    let mut m = sample();
    m.relocations[0] = reloc(CODE_SECTION_ID, 12, 17, Some(10));
    assert_eq!(ModuleInfo::new(m).err(), Some(ReadError::UnknownSymbol { symbol: 10 }));
}

#[test]
fn bad_symbols_are_errors() {
    let mut m = sample();
    m.symbols.0.push(func_symbol(4));
    assert_eq!(ModuleInfo::new(m).err(), Some(ReadError::UnknownFunction { func: 4 }));
    let mut m = sample();
    m.symbols.0[5] = data_symbol(2, 0, 1);
    assert_eq!(SymbolRangeInfo::new(&m).err(), Some(ReadError::BadDataSymbol { symbol: 5 }));
    let mut m = sample();
    m.data_segment_ranges[1] = range(usize::MAX - 4, usize::MAX);
    assert_eq!(SymbolRangeInfo::new(&m).err(), Some(ReadError::BadDataSymbol { symbol: 6 }));
    let mut m = sample();
    m.defined_funcs[0] = range(10, 46);
    assert_eq!(SymbolRangeInfo::new(&m).err(), Some(ReadError::RangesOverlap));
}

#[test]
fn dependencies_follow_the_tables() {
    let m = sample();
    let ranges = SymbolRangeInfo::new(&m).unwrap();
    let g = get_dependencies(&m, &ranges).unwrap();
    assert!(g.has_edge(DepNode::Function(2), DepNode::DataSymbol(5)));
    assert!(!g.has_edge(DepNode::Function(2), DepNode::Function(0)));
    assert_eq!(m.symbols.get_symbol_dep_node(3), Some(DepNode::Function(3)));
    assert_eq!(m.symbols.get_symbol_dep_node(9), Some(DepNode::Function(2)));
    assert_eq!(m.symbols.get_symbol_dep_node(7), Some(DepNode::DataSymbol(7)));
    assert_eq!(m.symbols.get_symbol_dep_node(8), None);
    assert_eq!(m.symbols.len(), 10);
}

#[test]
fn exactly_one_linking_section() {
    let names = |v: &[&str]| v.iter().map(|s| s.to_string()).collect::<Vec<_>>();
    assert_eq!(find_linking_section(&names(&["name", "linking", "reloc.CODE"])), Ok(1));
    assert_eq!(find_linking_section(&names(&["name"])), Err(ReadError::NoLinkingSection));
    assert_eq!(find_linking_section(&names(&[])), Err(ReadError::NoLinkingSection));
    assert_eq!(
        find_linking_section(&names(&["linking", "x", "linking"])),
        Err(ReadError::NoLinkingSection)
    );
    assert_eq!(find_linking_section(&names(&["Linking", "linking2"])), Err(ReadError::NoLinkingSection));
}

#[test]
fn exactly_one_symbol_table() {
    let table = LinkingKind::SymbolTable;
    assert_eq!(
        find_symbol_table(&vec![LinkingKind::SegmentInfo, table, LinkingKind::InitFuncs]),
        Ok(1)
    );
    assert_eq!(
        find_symbol_table(&vec![LinkingKind::ComdatInfo, LinkingKind::Unknown]),
        Err(ReadError::NoSymbolTable)
    );
    assert_eq!(find_symbol_table(&vec![table, table]), Err(ReadError::NoSymbolTable));
    assert_eq!(find_symbol_table(&Vec::new()), Err(ReadError::NoSymbolTable));
    assert_eq!(the_only(&vec![false, false, true]), Some(2));
    assert_eq!(the_only(&vec![true, false, true]), None);
    assert_eq!(the_only(&vec![false]), None);
}

#[test]
fn data_segment_ranges_are_relative_to_the_section() {
    assert_eq!(
        get_data_segment_ranges(100, &vec![(104, 20), (130, 0), (131, 9)]),
        Ok(vec![range(4, 24), range(30, 30), range(31, 40)])
    );
    assert_eq!(get_data_segment_ranges(7, &Vec::new()), Ok(Vec::new()));
    assert_eq!(
        get_data_segment_ranges(100, &vec![(104, 20), (99, 5)]),
        Err(ReadError::BadDataSegment { segment: 1 })
    );
    assert_eq!(
        get_data_segment_ranges(0, &vec![(usize::MAX, 1)]),
        Err(ReadError::BadDataSegment { segment: 0 })
    );
}

#[test]
fn byte_ranges_contain_and_measure() {
    assert!(range(2, 9).contains_range(&range(2, 9)));
    assert!(range(2, 9).contains_range(&range(3, 3)));
    assert!(!range(2, 9).contains_range(&range(1, 3)));
    assert!(!range(2, 9).contains_range(&range(8, 10)));
    assert_eq!(range(2, 9).len(), 7);
    assert_eq!(range(9, 9).len(), 0);
    assert_eq!(range(9, 2).len(), 0);
}

#[test]
fn ranges_are_taken_relative_to_a_base() {
    assert_eq!(range(12, 20).relative_to(10), Some(range(2, 10)));
    assert_eq!(range(10, 10).relative_to(10), Some(range(0, 0)));
    assert_eq!(range(9, 20).relative_to(10), None);
    assert_eq!(range(12, 11).relative_to(10), None);
}

#[test]
fn relocation_sections_are_told_apart_by_position() {
    assert_eq!(relocation_section_id(3, Some(3), Some(5)), CODE_SECTION_ID);
    assert_eq!(relocation_section_id(5, Some(3), Some(5)), DATA_SECTION_ID);
    assert_eq!(relocation_section_id(4, Some(3), Some(5)), 0);
    assert_eq!(relocation_section_id(0, None, None), 0);
    assert_eq!(relocation_section_id(2, None, Some(2)), DATA_SECTION_ID);
    assert_eq!(CODE_SECTION_ID, 10);
    assert_eq!(DATA_SECTION_ID, 11);
}

#[test]
fn function_names_are_put_in_a_table() {
    let entries = vec![
        (2, "two".to_string()),
        (0, "zero".to_string()),
        (5, "five".to_string()),
        (2, "deux".to_string()),
    ];
    assert_eq!(
        function_name_table(&entries, 4),
        vec![Some("zero".to_string()), None, Some("deux".to_string()), None]
    );
    assert!(function_name_table(&entries, 0).is_empty());
    assert_eq!(function_name_table(&Vec::new(), 2), vec![None, None]);
}

#[test]
fn data_symbols_may_lie_within_one_another() {
    let mut m = sample();
    // Symbol 4 covers bytes 0..20 of segment 0, symbol 5 bytes 8..12 within it.
    m.symbols.0[4] = data_symbol(0, 0, 20);
    m.symbols.0[5] = data_symbol(0, 8, 4);
    m.relocations = vec![
        reloc(DATA_SECTION_ID, 13, 15, Some(0)),
        reloc(DATA_SECTION_ID, 5, 9, Some(1)),
        reloc(DATA_SECTION_ID, 11, 17, Some(2)),
    ];
    let ranges = SymbolRangeInfo::new(&m).unwrap();
    // The segment starts at 4: symbol 5 lies at 12..16, symbol 4 at 4..24.
    assert_eq!(ranges.find_data_symbol_containing_range(range(13, 15)), Ok(5));
    assert_eq!(ranges.find_data_symbol_containing_range(range(12, 16)), Ok(5));
    assert_eq!(ranges.find_data_symbol_containing_range(range(5, 9)), Ok(4));
    assert_eq!(ranges.find_data_symbol_containing_range(range(11, 17)), Ok(4));
    assert_eq!(ranges.find_data_symbol_containing_range(range(20, 24)), Ok(4));
    assert_eq!(
        ranges.find_data_symbol_containing_range(range(20, 25)),
        Err(ReadError::NoDataSymbolForRange { range: range(20, 25) })
    );
    let info = ModuleInfo::new(m).unwrap();
    assert_eq!(info.dep_graph.get(DepNode::DataSymbol(5)), Some(&vec![DepNode::Function(0)]));
    assert_eq!(
        info.dep_graph.get(DepNode::DataSymbol(4)),
        Some(&vec![DepNode::Function(1), DepNode::Function(2)])
    );
}

#[test]
fn sorted_table_finds_the_last_containing_range() {
    let table = RangeTable::sorted(&vec![
        entry(0, 0, 100),
        entry(1, 10, 20),
        entry(2, 10, 50),
        entry(3, 30, 40),
        entry(4, 60, 70),
    ]);
    assert_eq!(table.len(), 5);
    assert_eq!(table.find_last_containing(&range(12, 18)), Some(2));
    assert_eq!(table.find_last_containing(&range(32, 38)), Some(3));
    assert_eq!(table.find_last_containing(&range(32, 45)), Some(2));
    assert_eq!(table.find_last_containing(&range(5, 6)), Some(0));
    assert_eq!(table.find_last_containing(&range(65, 80)), Some(0));
    assert_eq!(table.find_last_containing(&range(65, 101)), None);
    assert_eq!(table.find_last_containing(&range(10, 20)), Some(2));
    assert_eq!(RangeTable::sorted(&Vec::new()).find_last_containing(&range(0, 0)), None);
}

#[test]
fn sections_are_counted_and_symbols_told_from_types() {
    assert_eq!(next_section_position(PayloadKind::Section, 3), Some(4));
    assert_eq!(next_section_position(PayloadKind::CodeEntry, 3), Some(3));
    assert_eq!(next_section_position(PayloadKind::Version, 0), Some(0));
    assert_eq!(next_section_position(PayloadKind::End, 9), Some(9));
    assert_eq!(next_section_position(PayloadKind::Section, u32::MAX), None);
    assert_eq!(relocation_symbol(RelocKind::FunctionIndexLeb, 7), Some(7));
    assert_eq!(relocation_symbol(RelocKind::Other, 2), Some(2));
    assert_eq!(relocation_symbol(RelocKind::TypeIndexLeb, 7), None);
}

#[test]
fn entries_must_be_functions_of_the_module() {
    let mut m = sample();
    m.start = Some(4);
    assert_eq!(ModuleInfo::new(m).err(), Some(ReadError::UnknownFunction { func: 4 }));
    let mut m = sample();
    m.exports.push(Export { name: "run".to_string(), kind: ExternalKind::Func, index: 3 });
    m.exports.push(Export { name: "far".to_string(), kind: ExternalKind::Func, index: 9 });
    assert_eq!(ModuleInfo::new(m).err(), Some(ReadError::UnknownFunction { func: 9 }));
    let mut m = sample();
    m.exports.push(Export { name: "memory".to_string(), kind: ExternalKind::Memory, index: 9 });
    m.start = Some(3);
    assert!(ModuleInfo::new(m).is_ok());
    // The symbols are read before the entries.
    let mut m = sample();
    m.symbols.0.push(func_symbol(6));
    m.start = Some(4);
    assert_eq!(ModuleInfo::new(m).err(), Some(ReadError::UnknownFunction { func: 6 }));
}

#[test]
fn a_module_without_split_names_is_split_into_main_alone() {
    let mut m = sample();
    m.exports.push(Export { name: "run".to_string(), kind: ExternalKind::Func, index: 2 });
    let info = ModuleInfo::new(m).unwrap();
    let (points, plan) = split_module(&info).unwrap();
    assert!(points.is_empty());
    assert_eq!(plan.output_modules.len(), 1);
    let (identifier, main) = &plan.output_modules[0];
    assert!(identifier.same(&SplitModuleIdentifier::Main));
    assert_eq!(identifier.file_name(), "main.wasm");
    let held = [
        DepNode::Function(0),
        DepNode::Function(1),
        DepNode::Function(2),
        DepNode::Function(3),
        DepNode::DataSymbol(5),
        DepNode::DataSymbol(7),
    ];
    for node in held {
        assert!(main.included_symbols.contains(node), "{node:?}");
        assert_eq!(plan.symbol_output_module.get(node), Some(0));
    }
    assert!(!main.included_symbols.contains(DepNode::DataSymbol(4)));
    assert!(!main.included_symbols.contains(DepNode::DataSymbol(6)));
    assert_eq!(plan.symbol_output_module.get(DepNode::DataSymbol(6)), None);
    assert!(main.shared_imports.is_empty());
    assert!(main.split_points.is_empty());
    assert!(plan.shared_funcs.is_empty());
}

#[test]
fn the_first_unknown_entry_is_named() {
    let export = |index: u32| Export { name: "e".to_string(), kind: ExternalKind::Func, index };
    let mut m = sample();
    m.exports = vec![export(1), export(8), export(5)];
    assert_eq!(ModuleInfo::new(m).err(), Some(ReadError::UnknownFunction { func: 8 }));
    let mut m = sample();
    m.exports = vec![export(8)];
    m.start = Some(12);
    assert_eq!(ModuleInfo::new(m).err(), Some(ReadError::UnknownFunction { func: 12 }));
}
