//! What is derived from the input module before it is split: the tables of
//! byte ranges, and the dependency graph that the relocations give.

use crate::graph::DepGraph;
use crate::nodes::{DepNode, InputFuncId, NodeSet, SymbolIndex};
use crate::ranges::{
    covers_at, ends_ascend, entry_order, first_covering, last_covering, lemma_entry_order,
    none_covering, RangeEntry, RangeTable,
};
use crate::read::{
    ByteRange, DefinedDataSymbol, InputModule, Relocation, SymbolInfo, SymbolTable,
    CODE_SECTION_ID, DATA_SECTION_ID,
};
use crate::roots::{entry_before, exports_beyond, is_entry, is_first_entry_beyond};
use crate::split_point::{export_func_of, exported_func};
use vstd::prelude::*;
use vstd::relations::sorted_by;
use vstd::string::*;

verus! {

/// What is wrong with the input module.
#[derive(Debug, Clone, Copy, PartialEq, Eq, Structural)]
pub enum ReadError {
    /// There is no `linking` section, or more than one.
    NoLinkingSection,
    /// The `linking` section has no symbol table, or more than one.
    NoSymbolTable,
    /// There are more functions than can be counted.
    TooManyFunctions,
    /// A data segment lies before the start of the data section, or ends
    /// beyond what can be addressed.
    BadDataSegment { segment: usize },
    /// A data symbol names a segment that is not there, or ends beyond
    /// what can be addressed.
    BadDataSymbol { symbol: SymbolIndex },
    /// Among the functions or among the data segments, a range reaches
    /// beyond the end of a later one.
    RangesOverlap,
    /// A relocation of the code section lies in no function.
    NoFunctionForRange { range: ByteRange },
    /// A relocation of the data section lies in no data segment.
    NoDataSegmentForRange { range: ByteRange },
    /// A relocation of the data section lies in no data symbol.
    NoDataSymbolForRange { range: ByteRange },
    /// A relocation names a symbol that is not in the symbol table.
    UnknownSymbol { symbol: SymbolIndex },
    /// A function symbol, the start section or an export names a function
    /// that is not there.
    UnknownFunction { func: InputFuncId },
}

/// The byte ranges of the functions, the data segments and the data
/// symbols, each in ascending order. A data symbol may lie within
/// another; functions and data segments do not.
pub struct SymbolRangeInfo {
    /// The bodies of the defined functions, each with its function index.
    pub defined_funcs: RangeTable,
    /// The payloads of the data segments, each with its segment index.
    pub data_segment_ranges: RangeTable,
    /// The defined data symbols, each with its symbol index.
    pub data_symbols: RangeTable,
}

/// The body of each defined function with its function index.
pub open spec fn func_entries(module: &InputModule) -> Seq<RangeEntry> {
    Seq::new(
        module.defined_funcs@.len(),
        |i: int|
            RangeEntry {
                id: (module.imported_func_total() + i) as usize,
                range: module.defined_funcs@[i],
            },
    )
}

/// The payload of each data segment with its segment index.
pub open spec fn segment_entries(module: &InputModule) -> Seq<RangeEntry> {
    Seq::new(
        module.data_segment_ranges@.len(),
        |i: int| RangeEntry { id: i as usize, range: module.data_segment_ranges@[i] },
    )
}

/// The data symbol that symbol `i` defines, if it defines one.
pub open spec fn defined_data(module: &InputModule, i: int) -> Option<DefinedDataSymbol> {
    if 0 <= i < module.symbols.0@.len() {
        match module.symbols.0@[i] {
            SymbolInfo::Data { symbol: Some(defined), .. } => Some(defined),
            _ => None,
        }
    } else {
        None
    }
}

/// The bytes of a defined data symbol: as many as its size, from its
/// offset in the payload of its segment. None where the segment is not
/// there or the end cannot be addressed.
pub open spec fn data_range(module: &InputModule, defined: DefinedDataSymbol) -> Option<ByteRange> {
    if defined.index < module.data_segment_ranges@.len() {
        let base = module.data_segment_ranges@[defined.index as int].start;
        if base + defined.offset + defined.size <= usize::MAX {
            Some(
                ByteRange {
                    start: (base + defined.offset) as usize,
                    end: (base + defined.offset + defined.size) as usize,
                },
            )
        } else {
            None
        }
    } else {
        None
    }
}

/// Whether symbol `i` defines a data symbol whose bytes cannot be given.
pub open spec fn is_bad_data(module: &InputModule, i: int) -> bool {
    defined_data(module, i) matches Some(defined) && data_range(module, defined) is None
}

/// The bytes of each defined data symbol among the first `upto` symbols,
/// with its symbol index.
pub open spec fn data_entries(module: &InputModule, upto: int) -> Seq<RangeEntry>
    decreases upto,
{
    if upto <= 0 {
        Seq::empty()
    } else {
        let rest = data_entries(module, upto - 1);
        match defined_data(module, upto - 1) {
            Some(defined) => match data_range(module, defined) {
                Some(range) => rest.push(RangeEntry { id: (upto - 1) as usize, range }),
                None => rest,
            },
            None => rest,
        }
    }
}

/// Whether the entries can be put into a table whose first containing
/// range is found by bisection: in ascending order, their ends ascend
/// too.
pub open spec fn fits_table(entries: Seq<RangeEntry>) -> bool {
    exists|s: Seq<RangeEntry>|
        sorted_by(s, entry_order()) && #[trigger] s.to_multiset() == entries.to_multiset()
            && ends_ascend(s)
}

/// Whether `table` holds the entries `entries` in ascending order.
pub open spec fn is_sorted_table_of(table: RangeTable, entries: Seq<RangeEntry>) -> bool {
    table.is_sorted() && table@.to_multiset() == entries.to_multiset()
}

/// Whether `table` is the table of `entries`, with ends that ascend.
pub open spec fn is_table_of(table: RangeTable, entries: Seq<RangeEntry>) -> bool {
    table.wf() && table@.to_multiset() == entries.to_multiset()
}

/// The position of the first entry of `table` that covers `range`.
pub open spec fn found_at(table: Seq<RangeEntry>, range: ByteRange) -> Option<int> {
    if exists|i: int| first_covering(table, range, i) {
        Some(choose|i: int| first_covering(table, range, i))
    } else {
        None
    }
}

/// There is one first entry that covers a range, if any.
pub proof fn lemma_found_at(table: Seq<RangeEntry>, range: ByteRange, i: int)
    requires
        first_covering(table, range, i),
    ensures
        found_at(table, range) == Some(i),
{
    let j = choose|j: int| first_covering(table, range, j);
    if j < i {
        assert(!covers_at(table, range, j));
    } else if i < j {
        assert(!covers_at(table, range, i));
    }
}

/// No entry covers a range exactly if none is the first to do so.
pub proof fn lemma_not_found(table: Seq<RangeEntry>, range: ByteRange)
    requires
        none_covering(table, range),
    ensures
        found_at(table, range) is None,
{
    if exists|i: int| first_covering(table, range, i) {
        let i = choose|i: int| first_covering(table, range, i);
        assert(covers_at(table, range, i));
    }
}

/// What `table` finds for `range`: the index that the first covering
/// entry carries.
pub open spec fn found_id(table: Seq<RangeEntry>, range: ByteRange) -> Option<usize> {
    match found_at(table, range) {
        Some(i) => Some(table[i].id),
        None => None,
    }
}

/// The index that the first entry of `table` covering `range` carries.
fn lookup(table: &RangeTable, range: &ByteRange) -> (r: Option<usize>)
    requires
        table.wf(),
    ensures
        r == found_id(table@, *range),
{
    match table.find_containing(range) {
        Some(i) => {
            proof {
                lemma_found_at(table@, *range, i as int);
            }
            Some(table.get(i).id)
        },
        None => {
            proof {
                lemma_not_found(table@, *range);
            }
            None
        },
    }
}

/// The position of the last entry of `table` that covers `range`.
pub open spec fn found_last_at(table: Seq<RangeEntry>, range: ByteRange) -> Option<int> {
    if exists|i: int| last_covering(table, range, i) {
        Some(choose|i: int| last_covering(table, range, i))
    } else {
        None
    }
}

/// There is one last entry that covers a range, if any.
pub proof fn lemma_found_last_at(table: Seq<RangeEntry>, range: ByteRange, i: int)
    requires
        last_covering(table, range, i),
    ensures
        found_last_at(table, range) == Some(i),
{
    let j = choose|j: int| last_covering(table, range, j);
    if j < i {
        assert(!covers_at(table, range, i));
    } else if i < j {
        assert(!covers_at(table, range, j));
    }
}

/// Where no entry covers a range, none is the last to do so.
pub proof fn lemma_not_found_last(table: Seq<RangeEntry>, range: ByteRange)
    requires
        none_covering(table, range),
    ensures
        found_last_at(table, range) is None,
{
    if exists|i: int| last_covering(table, range, i) {
        let i = choose|i: int| last_covering(table, range, i);
        assert(covers_at(table, range, i));
    }
}

/// What `table` finds for `range` among ranges that may lie within one
/// another: the index that the last covering entry carries.
pub open spec fn found_last_id(table: Seq<RangeEntry>, range: ByteRange) -> Option<usize> {
    match found_last_at(table, range) {
        Some(i) => Some(table[i].id),
        None => None,
    }
}

/// The index that the last entry of `table` covering `range` carries.
fn lookup_last(table: &RangeTable, range: &ByteRange) -> (r: Option<usize>)
    requires
        table.is_sorted(),
    ensures
        r == found_last_id(table@, *range),
        r is None ==> none_covering(table@, *range),
{
    match table.find_last_containing(range) {
        Some(i) => {
            proof {
                lemma_found_last_at(table@, *range, i as int);
            }
            Some(table.get(i).id)
        },
        None => {
            proof {
                lemma_not_found_last(table@, *range);
            }
            None
        },
    }
}

impl SymbolRangeInfo {
    /// The three tables are in order.
    pub open spec fn wf(&self) -> bool {
        self.defined_funcs.wf() && self.data_segment_ranges.wf() && self.data_symbols.is_sorted()
    }

    /// Whether these are the tables of `module`.
    pub open spec fn describes(&self, module: &InputModule) -> bool {
        &&& is_table_of(self.defined_funcs, func_entries(module))
        &&& is_table_of(self.data_segment_ranges, segment_entries(module))
        &&& is_sorted_table_of(
            self.data_symbols,
            data_entries(module, module.symbols.0@.len() as int),
        )
    }

    /// The tables of `module`.
    ///
    /// Fails with `TooManyFunctions` where the functions cannot be
    /// counted; else with `BadDataSymbol` for the first defined data
    /// symbol whose bytes cannot be given; else with `RangesOverlap`
    /// where the functions or the data segments do not fit a table.
    pub fn new(module: &InputModule) -> (r: Result<SymbolRangeInfo, ReadError>)
        ensures
            match r {
                Ok(info) => {
                    &&& info.describes(module)
                    &&& module.func_total() <= usize::MAX
                    &&& forall|i: int| !is_bad_data(module, i)
                },
                Err(ReadError::TooManyFunctions) => module.func_total() > usize::MAX,
                Err(ReadError::BadDataSymbol { symbol }) => {
                    &&& module.func_total() <= usize::MAX
                    &&& is_bad_data(module, symbol as int)
                    &&& forall|i: int| 0 <= i < symbol ==> !is_bad_data(module, i)
                },
                Err(ReadError::RangesOverlap) => {
                    &&& module.func_total() <= usize::MAX
                    &&& forall|i: int| !is_bad_data(module, i)
                    &&& !(fits_table(func_entries(module)) && fits_table(segment_entries(module)))
                },
                Err(_) => false,
            },
    {
        let imported = module.imported_func_count();
        match module.func_count() {
            Some(_) => {},
            None => {
                return Err(ReadError::TooManyFunctions);
            },
        }
        let mut funcs: Vec<RangeEntry> = Vec::new();
        let mut i: usize = 0;
        while i < module.defined_funcs.len()
            invariant
                i <= module.defined_funcs@.len(),
                imported == module.imported_func_total(),
                module.func_total() <= usize::MAX,
                funcs@.len() == i,
                forall|j: int| 0 <= j < i ==> #[trigger] funcs@[j] == func_entries(module)[j],
            decreases module.defined_funcs@.len() - i,
        {
            funcs.push(RangeEntry { id: imported + i, range: module.defined_funcs[i] });
            i += 1;
        }
        assert(funcs@ =~= func_entries(module));
        let mut segments: Vec<RangeEntry> = Vec::new();
        let mut g: usize = 0;
        while g < module.data_segment_ranges.len()
            invariant
                g <= module.data_segment_ranges@.len(),
                segments@.len() == g,
                forall|j: int| 0 <= j < g ==> #[trigger] segments@[j] == segment_entries(module)[j],
            decreases module.data_segment_ranges@.len() - g,
        {
            segments.push(RangeEntry { id: g, range: module.data_segment_ranges[g] });
            g += 1;
        }
        assert(segments@ =~= segment_entries(module));
        let mut data: Vec<RangeEntry> = Vec::new();
        let mut s: usize = 0;
        while s < module.symbols.len()
            invariant
                s <= module.symbols.0@.len(),
                module.func_total() <= usize::MAX,
                data@ == data_entries(module, s as int),
                forall|j: int| 0 <= j < s ==> !is_bad_data(module, j),
            decreases module.symbols.0@.len() - s,
        {
            match &module.symbols.0[s] {
                SymbolInfo::Data { symbol: Some(defined), .. } => {
                    assert(defined_data(module, s as int) == Some(*defined));
                    let range = match range_of(module, defined) {
                        Some(range) => range,
                        None => {
                            return Err(ReadError::BadDataSymbol { symbol: s });
                        },
                    };
                    data.push(RangeEntry { id: s, range });
                },
                _ => {
                    assert(defined_data(module, s as int) is None);
                },
            }
            s += 1;
        }
        assert forall|i: int| !is_bad_data(module, i) by {
            if !(0 <= i < module.symbols.0@.len()) {
                assert(defined_data(module, i) is None);
            }
        }
        let defined_funcs = match RangeTable::build(&funcs) {
            Some(table) => table,
            None => {
                return Err(ReadError::RangesOverlap);
            },
        };
        let data_segment_ranges = match RangeTable::build(&segments) {
            Some(table) => table,
            None => {
                return Err(ReadError::RangesOverlap);
            },
        };
        let data_symbols = RangeTable::sorted(&data);
        Ok(SymbolRangeInfo { defined_funcs, data_segment_ranges, data_symbols })
    }

    /// The function whose body contains `range`.
    pub fn find_function_containing_range(&self, range: ByteRange) -> (r: Result<usize, ReadError>)
        requires
            self.wf(),
        ensures
            match r {
                Ok(func) => found_id(self.defined_funcs@, range) == Some(func),
                Err(err) => found_id(self.defined_funcs@, range) is None && err
                    == (ReadError::NoFunctionForRange { range }),
            },
    {
        match lookup(&self.defined_funcs, &range) {
            Some(func) => Ok(func),
            None => Err(ReadError::NoFunctionForRange { range }),
        }
    }

    /// The data segment whose payload contains `range`.
    pub fn find_data_segment_containing_range(&self, range: ByteRange) -> (r: Result<
        usize,
        ReadError,
    >)
        requires
            self.wf(),
        ensures
            match r {
                Ok(segment) => found_id(self.data_segment_ranges@, range) == Some(segment),
                Err(err) => found_id(self.data_segment_ranges@, range) is None && err
                    == (ReadError::NoDataSegmentForRange { range }),
            },
    {
        match lookup(&self.data_segment_ranges, &range) {
            Some(segment) => Ok(segment),
            None => Err(ReadError::NoDataSegmentForRange { range }),
        }
    }

    /// The data symbol whose bytes contain `range`: of those that contain
    /// it, the one that starts last.
    pub fn find_data_symbol_containing_range(&self, range: ByteRange) -> (r: Result<
        usize,
        ReadError,
    >)
        requires
            self.wf(),
        ensures
            match r {
                Ok(symbol) => found_last_id(self.data_symbols@, range) == Some(symbol),
                Err(err) => none_covering(self.data_symbols@, range) && found_last_id(
                    self.data_symbols@,
                    range,
                ) is None && err
                    == (ReadError::NoDataSymbolForRange { range }),
            },
    {
        match lookup_last(&self.data_symbols, &range) {
            Some(symbol) => Ok(symbol),
            None => Err(ReadError::NoDataSymbolForRange { range }),
        }
    }
}

/// The bytes of a defined data symbol.
fn range_of(module: &InputModule, defined: &DefinedDataSymbol) -> (r: Option<ByteRange>)
    ensures
        r == data_range(module, *defined),
{
    let segment = defined.index as usize;
    if segment >= module.data_segment_ranges.len() {
        return None;
    }
    let base = module.data_segment_ranges[segment].start;
    let start = match base.checked_add(defined.offset as usize) {
        Some(start) => start,
        None => {
            return None;
        },
    };
    match start.checked_add(defined.size as usize) {
        Some(end) => Some(ByteRange { start, end }),
        None => None,
    }
}

/// The three tables as sequences.
pub struct Tables {
    pub funcs: Seq<RangeEntry>,
    pub segments: Seq<RangeEntry>,
    pub symbols: Seq<RangeEntry>,
}

impl SymbolRangeInfo {
    /// The three tables as sequences.
    pub open spec fn tables(&self) -> Tables {
        Tables {
            funcs: self.defined_funcs@,
            segments: self.data_segment_ranges@,
            symbols: self.data_symbols@,
        }
    }
}

/// The node in which a relocation lies: for the code section the function
/// whose body contains it; for the data section the data symbol whose
/// bytes contain it, within a data segment that contains it; for any other
/// section none.
pub open spec fn reloc_source(tables: Tables, reloc: Relocation) -> Result<
    Option<DepNode>,
    ReadError,
> {
    if reloc.section_id == CODE_SECTION_ID {
        match found_id(tables.funcs, reloc.range) {
            Some(func) => Ok(Some(DepNode::Function(func))),
            None => Err(ReadError::NoFunctionForRange { range: reloc.range }),
        }
    } else if reloc.section_id == DATA_SECTION_ID {
        match found_id(tables.segments, reloc.range) {
            Some(_) => match found_last_id(tables.symbols, reloc.range) {
                Some(symbol) => Ok(Some(DepNode::DataSymbol(symbol))),
                None => Err(ReadError::NoDataSymbolForRange { range: reloc.range }),
            },
            None => Err(ReadError::NoDataSegmentForRange { range: reloc.range }),
        }
    } else {
        Ok(None)
    }
}

/// The node that a relocation refers to: that of its symbol, which must be
/// in the symbol table, and whose function, for a function symbol, must be
/// one of the `func_bound` functions.
pub open spec fn reloc_target(
    symbols: Seq<SymbolInfo>,
    func_bound: nat,
    reloc: Relocation,
) -> Result<Option<DepNode>, ReadError> {
    match reloc.symbol {
        None => Ok(None),
        Some(symbol) => if symbol >= symbols.len() {
            Err(ReadError::UnknownSymbol { symbol })
        } else {
            match SymbolTable::dep_node_of(symbols[symbol as int], symbol) {
                Some(DepNode::Function(func)) => if func >= func_bound {
                    Err(ReadError::UnknownFunction { func })
                } else {
                    Ok(Some(DepNode::Function(func)))
                },
                Some(node) => Ok(Some(node)),
                None => Ok(None),
            }
        },
    }
}

/// The edge that a relocation gives, from the node in which it lies to
/// the node that it refers to, if it has both.
pub open spec fn reloc_edge(
    tables: Tables,
    symbols: Seq<SymbolInfo>,
    func_bound: nat,
    reloc: Relocation,
) -> Result<Option<(DepNode, DepNode)>, ReadError> {
    match reloc_source(tables, reloc) {
        Err(err) => Err(err),
        Ok(None) => Ok(None),
        Ok(Some(source)) => match reloc_target(symbols, func_bound, reloc) {
            Err(err) => Err(err),
            Ok(None) => Ok(None),
            Ok(Some(target)) => Ok(Some((source, target))),
        },
    }
}

/// The edges that the first `upto` relocations give.
pub open spec fn edges_upto(
    tables: Tables,
    symbols: Seq<SymbolInfo>,
    func_bound: nat,
    relocs: Seq<Relocation>,
    upto: int,
) -> Set<(DepNode, DepNode)> {
    Set::new(
        |e: (DepNode, DepNode)|
            exists|i: int|
                0 <= i < upto && i < relocs.len() && reloc_edge(
                    tables,
                    symbols,
                    func_bound,
                    #[trigger] relocs[i],
                ) == Ok::<Option<(DepNode, DepNode)>, ReadError>(Some(e)),
    )
}

/// Whether every index that the entries carry is below `bound`.
pub open spec fn ids_below(entries: Seq<RangeEntry>, bound: nat) -> bool {
    forall|k: int| 0 <= k < entries.len() ==> (#[trigger] entries[k]).id < bound
}

/// The node in which `reloc` lies.
fn source_of(ranges: &SymbolRangeInfo, reloc: &Relocation) -> (r: Result<
    Option<DepNode>,
    ReadError,
>)
    requires
        ranges.wf(),
    ensures
        r == reloc_source(ranges.tables(), *reloc),
{
    if reloc.section_id == CODE_SECTION_ID {
        match ranges.find_function_containing_range(reloc.range) {
            Ok(func) => Ok(Some(DepNode::Function(func))),
            Err(err) => Err(err),
        }
    } else if reloc.section_id == DATA_SECTION_ID {
        match ranges.find_data_segment_containing_range(reloc.range) {
            Ok(_) => {},
            Err(err) => {
                return Err(err);
            },
        }
        match ranges.find_data_symbol_containing_range(reloc.range) {
            Ok(symbol) => Ok(Some(DepNode::DataSymbol(symbol))),
            Err(err) => Err(err),
        }
    } else {
        Ok(None)
    }
}

/// The node that `reloc` refers to.
fn target_of(symbols: &SymbolTable, func_bound: usize, reloc: &Relocation) -> (r: Result<
    Option<DepNode>,
    ReadError,
>)
    ensures
        r == reloc_target(symbols.0@, func_bound as nat, *reloc),
{
    match reloc.symbol {
        None => Ok(None),
        Some(symbol) => {
            if symbol >= symbols.len() {
                return Err(ReadError::UnknownSymbol { symbol });
            }
            match symbols.get_symbol_dep_node(symbol) {
                Some(DepNode::Function(func)) => {
                    if func >= func_bound {
                        Err(ReadError::UnknownFunction { func })
                    } else {
                        Ok(Some(DepNode::Function(func)))
                    }
                },
                Some(node) => Ok(Some(node)),
                None => Ok(None),
            }
        },
    }
}

/// Builds the dependency graph of `module` from its relocations: each
/// relocation of the code or the data section whose symbol is a function
/// or a data symbol gives an edge from the function or data symbol in
/// which it lies to that of its symbol.
///
/// Fails with the error of the first relocation that lies in no function
/// or data symbol, or whose symbol or function is not there.
pub fn get_dependencies(module: &InputModule, ranges: &SymbolRangeInfo) -> (r: Result<
    DepGraph,
    ReadError,
>)
    requires
        ranges.wf(),
        module.func_total() <= usize::MAX,
        ids_below(ranges.defined_funcs@, module.func_total()),
        ids_below(ranges.data_symbols@, module.symbols.0@.len() as nat),
    ensures
        match r {
            Ok(graph) => {
                &&& graph.wf()
                &&& graph.func_bound() == module.func_total()
                &&& graph.data_bound() == module.symbols.0@.len()
                &&& forall|i: int|
                    0 <= i < module.relocations@.len() ==> reloc_edge(
                        ranges.tables(),
                        module.symbols.0@,
                        module.func_total(),
                        #[trigger] module.relocations@[i],
                    ) is Ok
                &&& graph@ == edges_upto(
                    ranges.tables(),
                    module.symbols.0@,
                    module.func_total(),
                    module.relocations@,
                    module.relocations@.len() as int,
                )
            },
            Err(err) => exists|i: int|
                {
                    &&& 0 <= i < module.relocations@.len()
                    &&& reloc_edge(
                        ranges.tables(),
                        module.symbols.0@,
                        module.func_total(),
                        #[trigger] module.relocations@[i],
                    ) == Err::<Option<(DepNode, DepNode)>, ReadError>(err)
                    &&& forall|j: int|
                        0 <= j < i ==> reloc_edge(
                            ranges.tables(),
                            module.symbols.0@,
                            module.func_total(),
                            #[trigger] module.relocations@[j],
                        ) is Ok
                },
        },
{
    let func_bound = match module.func_count() {
        Some(n) => n,
        None => {
            assert(false);
            0
        },
    };
    let data_bound = module.symbols.len();
    let ghost tables = ranges.tables();
    let ghost symbols = module.symbols.0@;
    let ghost relocs = module.relocations@;
    let mut graph = DepGraph::new(func_bound, data_bound);
    let mut i: usize = 0;
    assert(graph@ =~= edges_upto(tables, symbols, func_bound as nat, relocs, 0));
    while i < module.relocations.len()
        invariant
            i <= relocs.len(),
            ranges.wf(),
            tables == ranges.tables(),
            symbols == module.symbols.0@,
            relocs == module.relocations@,
            func_bound == module.func_total(),
            data_bound == symbols.len(),
            ids_below(ranges.defined_funcs@, func_bound as nat),
            ids_below(ranges.data_symbols@, data_bound as nat),
            graph.wf(),
            graph.func_bound() == func_bound,
            graph.data_bound() == data_bound,
            forall|j: int|
                0 <= j < i ==> reloc_edge(tables, symbols, func_bound as nat, #[trigger] relocs[j])
                    is Ok,
            graph@ == edges_upto(tables, symbols, func_bound as nat, relocs, i as int),
        decreases relocs.len() - i,
    {
        let reloc = &module.relocations[i];
        let ghost before = graph@;
        let source = match source_of(ranges, reloc) {
            Ok(source) => source,
            Err(err) => {
                return Err(err);
            },
        };
        match source {
            Some(from) => {
                let target = match target_of(&module.symbols, func_bound, reloc) {
                    Ok(target) => target,
                    Err(err) => {
                        return Err(err);
                    },
                };
                match target {
                    Some(to) => {
                        proof {
                            lemma_source_spanned(
                                tables,
                                *reloc,
                                func_bound as nat,
                                data_bound as nat,
                            );
                        }
                        graph.add_edge(from, to);
                    },
                    None => {},
                }
            },
            None => {},
        }
        proof {
            let edge = reloc_edge(tables, symbols, func_bound as nat, *reloc);
            assert(edge is Ok);
            assert forall|e: (DepNode, DepNode)|
                graph@.contains(e) == edges_upto(
                    tables,
                    symbols,
                    func_bound as nat,
                    relocs,
                    i + 1,
                ).contains(e) by {
                if edges_upto(tables, symbols, func_bound as nat, relocs, i + 1).contains(e) {
                    let x = choose|x: int|
                        0 <= x < i + 1 && x < relocs.len() && reloc_edge(
                            tables,
                            symbols,
                            func_bound as nat,
                            #[trigger] relocs[x],
                        ) == Ok::<Option<(DepNode, DepNode)>, ReadError>(Some(e));
                    if x < i {
                        assert(before.contains(e));
                    }
                }
                if before.contains(e) {
                    let x = choose|x: int|
                        0 <= x < i && x < relocs.len() && reloc_edge(
                            tables,
                            symbols,
                            func_bound as nat,
                            #[trigger] relocs[x],
                        ) == Ok::<Option<(DepNode, DepNode)>, ReadError>(Some(e));
                    assert(0 <= x < i + 1);
                }
                if edge == Ok::<Option<(DepNode, DepNode)>, ReadError>(Some(e)) {
                    assert(relocs[i as int] == *reloc);
                }
            }
            assert(graph@ =~= edges_upto(tables, symbols, func_bound as nat, relocs, i + 1));
        }
        i += 1;
    }
    Ok(graph)
}

/// The node in which a relocation lies is a node of the graph.
proof fn lemma_source_spanned(tables: Tables, reloc: Relocation, func_bound: nat, data_bound: nat)
    requires
        ids_below(tables.funcs, func_bound),
        ids_below(tables.symbols, data_bound),
    ensures
        reloc_source(tables, reloc) matches Ok(Some(node)) ==> NodeSet::in_bounds(
            node,
            func_bound,
            data_bound,
        ),
{
    if reloc.section_id == CODE_SECTION_ID {
        if found_at(tables.funcs, reloc.range) is Some {
            let i = found_at(tables.funcs, reloc.range)->0;
            assert(first_covering(tables.funcs, reloc.range, i));
            assert(tables.funcs[i].id < func_bound);
        }
    } else if reloc.section_id == DATA_SECTION_ID {
        if found_last_at(tables.symbols, reloc.range) is Some {
            let i = found_last_at(tables.symbols, reloc.range)->0;
            assert(last_covering(tables.symbols, reloc.range, i));
            assert(tables.symbols[i].id < data_bound);
        }
    }
}

/// Whether `s` holds the entries `entries` in ascending order.
pub open spec fn is_sorted_form(s: Seq<RangeEntry>, entries: Seq<RangeEntry>) -> bool {
    sorted_by(s, entry_order()) && s.to_multiset() == entries.to_multiset()
}

/// The entries in ascending order.
pub open spec fn sorted_form(entries: Seq<RangeEntry>) -> Seq<RangeEntry> {
    choose|s: Seq<RangeEntry>| is_sorted_form(s, entries)
}

/// The three tables of `module`.
pub open spec fn tables_of(module: &InputModule) -> Tables {
    Tables {
        funcs: sorted_form(func_entries(module)),
        segments: sorted_form(segment_entries(module)),
        symbols: sorted_form(data_entries(module, module.symbols.0@.len() as int)),
    }
}

/// The table of some entries holds them in ascending order, and there is
/// one such order only.
pub proof fn lemma_table_is_sorted_form(table: RangeTable, entries: Seq<RangeEntry>)
    requires
        is_sorted_table_of(table, entries),
    ensures
        table@ == sorted_form(entries),
{
    assert(is_sorted_form(table@, entries));
    lemma_entry_order();
    vstd::seq_lib::lemma_sorted_unique(table@, sorted_form(entries), entry_order());
}

/// Each entry of a table is one of the entries that it is the table of.
pub proof fn lemma_table_entry(table: RangeTable, entries: Seq<RangeEntry>, k: int)
    requires
        is_sorted_table_of(table, entries),
        0 <= k < table@.len(),
    ensures
        entries.contains(table@[k]),
{
    table@.to_multiset_ensures();
    entries.to_multiset_ensures();
    let e = table@[k];
    assert(table@.contains(e));
    assert(table@.to_multiset().count(e) > 0);
    assert(entries.to_multiset().count(e) > 0);
}

/// A data symbol among the first `upto` symbols has an index below `upto`.
pub proof fn lemma_data_entries_below(module: &InputModule, upto: int, k: int)
    requires
        0 <= k < data_entries(module, upto).len(),
        upto <= module.symbols.0@.len(),
    ensures
        data_entries(module, upto)[k].id < upto,
    decreases upto,
{
    if upto > 0 {
        let rest = data_entries(module, upto - 1);
        if k < rest.len() {
            lemma_data_entries_below(module, upto - 1, k);
        }
    }
}

/// The tables of a module carry indices of its functions and symbols.
pub proof fn lemma_tables_in_range(ranges: &SymbolRangeInfo, module: &InputModule)
    requires
        ranges.describes(module),
        module.func_total() <= usize::MAX,
    ensures
        ids_below(ranges.defined_funcs@, module.func_total()),
        ids_below(ranges.data_symbols@, module.symbols.0@.len() as nat),
        ranges.tables() == tables_of(module),
{
    let funcs = func_entries(module);
    let total = module.symbols.0@.len() as int;
    let data = data_entries(module, total);
    assert forall|k: int| 0 <= k < ranges.defined_funcs@.len() implies (
    #[trigger] ranges.defined_funcs@[k]).id < module.func_total() by {
        lemma_table_entry(ranges.defined_funcs, funcs, k);
        let j = choose|j: int| 0 <= j < funcs.len() && funcs[j] == ranges.defined_funcs@[k];
    }
    assert forall|k: int| 0 <= k < ranges.data_symbols@.len() implies (
    #[trigger] ranges.data_symbols@[k]).id < total by {
        lemma_table_entry(ranges.data_symbols, data, k);
        let j = choose|j: int| 0 <= j < data.len() && data[j] == ranges.data_symbols@[k];
        lemma_data_entries_below(module, total, j);
    }
    lemma_table_is_sorted_form(ranges.defined_funcs, funcs);
    lemma_table_is_sorted_form(ranges.data_segment_ranges, segment_entries(module));
    lemma_table_is_sorted_form(ranges.data_symbols, data);
}

/// The last of the first `upto` symbols that is a symbol of function `f`.
pub open spec fn last_symbol_of(symbols: Seq<SymbolInfo>, f: InputFuncId, upto: int) -> Option<
    SymbolIndex,
>
    decreases upto,
{
    if upto <= 0 {
        None
    } else if upto <= symbols.len() && SymbolTable::dep_node_of(
        symbols[upto - 1],
        (upto - 1) as usize,
    ) == Some(DepNode::Function(f)) && symbols[upto - 1] is Func {
        Some((upto - 1) as usize)
    } else {
        last_symbol_of(symbols, f, upto - 1)
    }
}

/// Whether symbol `i` is a symbol of a function that is not there.
pub open spec fn names_unknown_func(module: &InputModule, i: int) -> bool {
    &&& 0 <= i < module.symbols.0@.len()
    &&& module.symbols.0@[i] matches SymbolInfo::Func { index, .. }
    &&& index >= module.func_total()
}

/// Whether `f` is an entry of the program, its start function or an
/// exported function, that is not there.
pub open spec fn is_unknown_entry(module: &InputModule, f: InputFuncId) -> bool {
    is_entry(module, f) && f >= module.func_total()
}

/// Whether `f` is the first entry of the program that is not there: the
/// start function, or else the function of the first export of such a
/// function.
pub open spec fn is_first_unknown_entry(module: &InputModule, f: InputFuncId) -> bool {
    is_first_entry_beyond(module, module.func_total(), f)
}

/// Whether the input module can be read: its functions can be counted,
/// the bytes of its data symbols can be given, its functions and data
/// segments fit their tables, its function symbols, its start function
/// and its exports name functions that are there, and each relocation
/// gives an edge or none.
pub open spec fn reads(module: &InputModule) -> bool {
    &&& module.func_total() <= usize::MAX
    &&& forall|i: int| !is_bad_data(module, i)
    &&& fits_table(func_entries(module))
    &&& fits_table(segment_entries(module))
    &&& forall|i: int| !names_unknown_func(module, i)
    &&& forall|f: InputFuncId| !is_unknown_entry(module, f)
    &&& forall|i: int|
        0 <= i < module.relocations@.len() ==> reloc_edge(
            tables_of(module),
            module.symbols.0@,
            module.func_total(),
            #[trigger] module.relocations@[i],
        ) is Ok
}

/// Whether the functions and the data segments of the module fit their
/// tables.
pub open spec fn ranges_fit(module: &InputModule) -> bool {
    &&& fits_table(func_entries(module))
    &&& fits_table(segment_entries(module))
}

/// Whether symbol `i` is the first symbol of a function that is not
/// there.
pub open spec fn is_first_unknown_func(module: &InputModule, i: int) -> bool {
    &&& names_unknown_func(module, i)
    &&& forall|j: int| 0 <= j < i ==> !names_unknown_func(module, j)
}

/// Whether relocation `i` is the first that gives an error, and gives
/// `err`.
pub open spec fn is_first_reloc_error(module: &InputModule, i: int, err: ReadError) -> bool {
    &&& 0 <= i < module.relocations@.len()
    &&& reloc_edge(
        tables_of(module),
        module.symbols.0@,
        module.func_total(),
        module.relocations@[i],
    ) == Err::<Option<(DepNode, DepNode)>, ReadError>(err)
    &&& forall|j: int|
        0 <= j < i ==> reloc_edge(
            tables_of(module),
            module.symbols.0@,
            module.func_total(),
            #[trigger] module.relocations@[j],
        ) is Ok
}

/// Whether `err` says what is wrong with the module first: that its
/// functions cannot be counted; else the first data symbol whose bytes
/// cannot be given; else that its functions or data segments do not fit
/// their tables; else
/// the function of the first function symbol that is not there; else the
/// first entry of the program that is not there; else the error of the
/// first relocation that has one.
pub open spec fn fails_with(module: &InputModule, err: ReadError) -> bool {
    if module.func_total() > usize::MAX {
        err == ReadError::TooManyFunctions
    } else if exists|i: int| is_bad_data(module, i) {
        exists|s: int|
            {
                &&& #[trigger] is_bad_data(module, s)
                &&& forall|i: int| 0 <= i < s ==> !is_bad_data(module, i)
                &&& err == (ReadError::BadDataSymbol { symbol: s as usize })
            }
    } else if !ranges_fit(module) {
        err == ReadError::RangesOverlap
    } else if exists|i: int| names_unknown_func(module, i) {
        exists|i: int|
            #[trigger] is_first_unknown_func(module, i) && err == (ReadError::UnknownFunction {
                func: module.symbols.0@[i]->Func_index as usize,
            })
    } else if exists|f: InputFuncId| is_unknown_entry(module, f) {
        exists|f: InputFuncId|
            #[trigger] is_first_unknown_entry(module, f) && err == (ReadError::UnknownFunction {
                func: f,
            })
    } else {
        exists|i: int| #[trigger] is_first_reloc_error(module, i, err)
    }
}

/// The input module with what is derived from it: for each function its
/// symbol, and the dependency graph.
pub struct ModuleInfo {
    pub module: InputModule,
    /// For each function the last symbol that names it, if any.
    pub func_symbols: Vec<Option<SymbolIndex>>,
    pub dep_graph: DepGraph,
}

impl ModuleInfo {
    /// The graph is in order and is over the functions of the module, and
    /// the entries of the program are functions of it.
    pub open spec fn wf(&self) -> bool {
        &&& self.dep_graph.wf()
        &&& self.dep_graph.func_bound() == self.module.func_total()
        &&& forall|f: InputFuncId| is_entry(&self.module, f) ==> f < self.module.func_total()
    }

    /// Derives the symbols of the functions and the dependency graph from
    /// `module`, if it can be read; else the error says why not.
    pub fn new(module: InputModule) -> (r: Result<ModuleInfo, ReadError>)
        ensures
            r is Ok <==> reads(&module),
            match r {
                Ok(info) => {
                    &&& info.module == module
                    &&& info.wf()
                    &&& info.dep_graph.wf()
                    &&& info.dep_graph.func_bound() == module.func_total()
                    &&& info.dep_graph.data_bound() == module.symbols.0@.len()
                    &&& info.dep_graph@ == edges_upto(
                        tables_of(&module),
                        module.symbols.0@,
                        module.func_total(),
                        module.relocations@,
                        module.relocations@.len() as int,
                    )
                    &&& info.func_symbols@.len() == module.func_total()
                    &&& forall|f: InputFuncId|
                        f < module.func_total() ==> #[trigger] info.func_symbols@[f as int]
                            == last_symbol_of(module.symbols.0@, f, module.symbols.0@.len() as int)
                },
                Err(err) => fails_with(&module, err),
            },
    {
        let ranges = match SymbolRangeInfo::new(&module) {
            Ok(ranges) => ranges,
            Err(err) => {
                proof {
                    match err {
                        ReadError::BadDataSymbol { symbol } => {
                            assert(is_bad_data(&module, symbol as int));
                        },
                        _ => {},
                    }
                }
                return Err(err);
            },
        };
        proof {
            lemma_tables_in_range(&ranges, &module);
            assert(fits_table(func_entries(&module))) by {
                assert(is_sorted_form(ranges.defined_funcs@, func_entries(&module)));
            }
            assert(fits_table(segment_entries(&module))) by {
                assert(is_sorted_form(ranges.data_segment_ranges@, segment_entries(&module)));
            }

        }
        let func_bound = match module.func_count() {
            Some(n) => n,
            None => {
                assert(false);
                0
            },
        };
        let ghost symbols = module.symbols.0@;
        let mut func_symbols: Vec<Option<SymbolIndex>> = Vec::new();
        let mut f: usize = 0;
        while f < func_bound
            invariant
                f <= func_bound,
                func_symbols@.len() == f,
                forall|g: int| 0 <= g < f ==> #[trigger] func_symbols@[g] is None,
            decreases func_bound - f,
        {
            func_symbols.push(None);
            f += 1;
        }
        let mut i: usize = 0;
        while i < module.symbols.len()
            invariant
                i <= symbols.len(),
                symbols == module.symbols.0@,
                func_bound == module.func_total(),
                func_symbols@.len() == func_bound,
                module.func_total() <= usize::MAX,
                forall|i: int| !is_bad_data(&module, i),
                ranges_fit(&module),
                forall|j: int| 0 <= j < i ==> !names_unknown_func(&module, j),
                forall|g: InputFuncId|
                    g < func_bound ==> #[trigger] func_symbols@[g as int] == last_symbol_of(
                        symbols,
                        g,
                        i as int,
                    ),
            decreases symbols.len() - i,
        {
            match &module.symbols.0[i] {
                SymbolInfo::Func { index, .. } => {
                    let func = *index as usize;
                    if func >= func_bound {
                        assert(is_first_unknown_func(&module, i as int));
                        return Err(ReadError::UnknownFunction { func });
                    }
                    func_symbols.set(func, Some(i));
                },
                _ => {},
            }
            i += 1;
        }
        proof {
            assert forall|i: int| !names_unknown_func(&module, i) by {}
        }
        match module.start {
            Some(f) => {
                if f >= func_bound {
                    assert(is_unknown_entry(&module, f));
                    assert(is_first_unknown_entry(&module, f));
                    return Err(ReadError::UnknownFunction { func: f });
                }
            },
            None => {},
        }
        let mut e: usize = 0;
        while e < module.exports.len()
            invariant
                e <= module.exports@.len(),
                func_bound == module.func_total(),
                module.func_total() <= usize::MAX,
                forall|i: int| !is_bad_data(&module, i),
                ranges_fit(&module),
                forall|i: int| !names_unknown_func(&module, i),
                module.start matches Some(start) ==> start < func_bound,
                forall|x: int| 0 <= x < e ==> !exports_beyond(&module, func_bound as nat, x),
            decreases module.exports@.len() - e,
        {
            match export_func_of(&module.exports[e]) {
                Some(f) => {
                    if f >= func_bound {
                        assert(entry_before(
                            &module,
                            module.exports@.len() as int,
                            module.imported_func_total() as int,
                            f,
                        ));
                        assert(is_unknown_entry(&module, f));
                        assert(exports_beyond(&module, func_bound as nat, e as int));
                        assert(is_first_unknown_entry(&module, f));
                        return Err(ReadError::UnknownFunction { func: f });
                    }
                },
                None => {},
            }
            e += 1;
        }
        proof {
            assert forall|f: InputFuncId| !is_unknown_entry(&module, f) by {
                if is_entry(&module, f) && f >= func_bound {
                    if module.start != Some(f) && !(f < module.imported_func_total()) {
                        let x = choose|x: int|
                            0 <= x < module.exports@.len() && x < module.exports@.len()
                                && exported_func(#[trigger] module.exports@[x]) == Some(f);
                        assert(!exports_beyond(&module, func_bound as nat, x));
                        assert(f < func_bound);
                    }
                }
            }
        }
        proof {
            assert forall|f: InputFuncId| is_entry(&module, f) implies f
                < module.func_total() by {
                assert(!is_unknown_entry(&module, f));
            }
        }
        let dep_graph = match get_dependencies(&module, &ranges) {
            Ok(graph) => graph,
            Err(err) => {
                proof {
                    let i = choose|i: int|
                        {
                            &&& 0 <= i < module.relocations@.len()
                            &&& reloc_edge(
                                ranges.tables(),
                                module.symbols.0@,
                                module.func_total(),
                                #[trigger] module.relocations@[i],
                            ) == Err::<Option<(DepNode, DepNode)>, ReadError>(err)
                            &&& forall|j: int|
                                0 <= j < i ==> reloc_edge(
                                    ranges.tables(),
                                    module.symbols.0@,
                                    module.func_total(),
                                    #[trigger] module.relocations@[j],
                                ) is Ok
                        };
                    assert(is_first_reloc_error(&module, i, err));
                }
                return Err(err);
            },
        };
        Ok(ModuleInfo { module, func_symbols, dep_graph })
    }
}

/// Whether position `i` is the only one that is marked.
pub open spec fn is_only(marks: Seq<bool>, i: int) -> bool {
    &&& 0 <= i < marks.len()
    &&& marks[i]
    &&& forall|j: int| 0 <= j < marks.len() && j != i ==> !#[trigger] marks[j]
}

/// The one position that is marked, if there is exactly one.
pub fn the_only(marks: &Vec<bool>) -> (r: Option<usize>)
    ensures
        match r {
            Some(i) => is_only(marks@, i as int),
            None => forall|i: int| !is_only(marks@, i),
        },
{
    let mut found: Option<usize> = None;
    let mut i: usize = 0;
    while i < marks.len()
        invariant
            i <= marks@.len(),
            match found {
                Some(at) => at < i && marks@[at as int] && forall|j: int|
                    0 <= j < i && j != at ==> !#[trigger] marks@[j],
                None => forall|j: int| 0 <= j < i ==> !#[trigger] marks@[j],
            },
        decreases marks@.len() - i,
    {
        if marks[i] {
            match found {
                Some(at) => {
                    assert forall|k: int| !is_only(marks@, k) by {
                        assert(marks@[at as int] && marks@[i as int]);
                    }
                    return None;
                },
                None => {
                    found = Some(i);
                },
            }
        }
        i += 1;
    }
    found
}

/// The kinds of subsections of the `linking` section.
#[derive(Debug, Clone, Copy, PartialEq, Eq, Structural)]
pub enum LinkingKind {
    SegmentInfo,
    InitFuncs,
    ComdatInfo,
    SymbolTable,
    Unknown,
}

/// Whether each custom section is the `linking` section, by its name.
pub open spec fn linking_marks(names: Seq<String>) -> Seq<bool> {
    Seq::new(names.len(), |i: int| names[i]@ == "linking"@)
}

/// The position of the `linking` section among the custom sections with
/// the given names. There must be exactly one.
pub fn find_linking_section(names: &Vec<String>) -> (r: Result<usize, ReadError>)
    ensures
        match r {
            Ok(i) => is_only(linking_marks(names@), i as int),
            Err(err) => err == ReadError::NoLinkingSection && forall|i: int|
                !is_only(linking_marks(names@), i),
        },
{
    let wanted = String::from_str("linking");
    let mut marks: Vec<bool> = Vec::new();
    let mut i: usize = 0;
    while i < names.len()
        invariant
            i <= names@.len(),
            wanted@ == "linking"@,
            marks@.len() == i,
            forall|j: int| 0 <= j < i ==> #[trigger] marks@[j] == linking_marks(names@)[j],
        decreases names@.len() - i,
    {
        marks.push(names[i] == wanted);
        i += 1;
    }
    assert(marks@ =~= linking_marks(names@));
    match the_only(&marks) {
        Some(i) => Ok(i),
        None => Err(ReadError::NoLinkingSection),
    }
}

/// Whether each subsection is a symbol table.
pub open spec fn table_marks(kinds: Seq<LinkingKind>) -> Seq<bool> {
    Seq::new(kinds.len(), |i: int| kinds[i] == LinkingKind::SymbolTable)
}

/// The position of the symbol table among the subsections of the
/// `linking` section. There must be exactly one.
pub fn find_symbol_table(kinds: &Vec<LinkingKind>) -> (r: Result<usize, ReadError>)
    ensures
        match r {
            Ok(i) => is_only(table_marks(kinds@), i as int),
            Err(err) => err == ReadError::NoSymbolTable && forall|i: int|
                !is_only(table_marks(kinds@), i),
        },
{
    let mut marks: Vec<bool> = Vec::new();
    let mut i: usize = 0;
    while i < kinds.len()
        invariant
            i <= kinds@.len(),
            marks@.len() == i,
            forall|j: int| 0 <= j < i ==> #[trigger] marks@[j] == table_marks(kinds@)[j],
        decreases kinds@.len() - i,
    {
        marks.push(kinds[i] == LinkingKind::SymbolTable);
        i += 1;
    }
    assert(marks@ =~= table_marks(kinds@));
    match the_only(&marks) {
        Some(i) => Ok(i),
        None => Err(ReadError::NoSymbolTable),
    }
}

/// The payload of a data segment in the coordinates of the data section:
/// the segment lies `offset` bytes into the buffer and has `len` bytes,
/// and the section starts `section_offset` bytes into the buffer.
pub open spec fn segment_range(section_offset: usize, offset: usize, len: usize) -> Option<
    ByteRange,
> {
    if offset >= section_offset && offset - section_offset + len <= usize::MAX {
        Some(
            ByteRange {
                start: (offset - section_offset) as usize,
                end: (offset - section_offset + len) as usize,
            },
        )
    } else {
        None
    }
}

/// The payload ranges of the data segments in the coordinates of the data
/// section, from where the section starts in the buffer and, for each
/// segment, where its payload starts in the buffer and how long it is.
/// The header of a segment is no part of its payload.
///
/// Fails for the first segment that starts before the section or ends
/// beyond what can be addressed.
pub fn get_data_segment_ranges(section_offset: usize, payloads: &Vec<(usize, usize)>) -> (r:
    Result<Vec<ByteRange>, ReadError>)
    ensures
        match r {
            Ok(ranges) => {
                &&& ranges@.len() == payloads@.len()
                &&& forall|i: int|
                    0 <= i < ranges@.len() ==> Some(#[trigger] ranges@[i]) == segment_range(
                        section_offset,
                        payloads@[i].0,
                        payloads@[i].1,
                    )
            },
            Err(err) => exists|i: int|
                {
                    &&& 0 <= i < payloads@.len()
                    &&& err == (ReadError::BadDataSegment { segment: i as usize })
                    &&& segment_range(
                        section_offset,
                        (#[trigger] payloads@[i]).0,
                        payloads@[i].1,
                    ) is None
                    &&& forall|j: int|
                        0 <= j < i ==> segment_range(
                            section_offset,
                            (#[trigger] payloads@[j]).0,
                            payloads@[j].1,
                        ) is Some
                },
        },
{
    let mut ranges: Vec<ByteRange> = Vec::new();
    let mut i: usize = 0;
    while i < payloads.len()
        invariant
            i <= payloads@.len(),
            ranges@.len() == i,
            forall|j: int|
                0 <= j < i ==> Some(#[trigger] ranges@[j]) == segment_range(
                    section_offset,
                    payloads@[j].0,
                    payloads@[j].1,
                ),
            forall|j: int|
                0 <= j < i ==> segment_range(
                    section_offset,
                    (#[trigger] payloads@[j]).0,
                    payloads@[j].1,
                ) is Some,
        decreases payloads@.len() - i,
    {
        let (offset, len) = payloads[i];
        if offset < section_offset {
            return Err(ReadError::BadDataSegment { segment: i });
        }
        let start = offset - section_offset;
        let end = match start.checked_add(len) {
            Some(end) => end,
            None => {
                return Err(ReadError::BadDataSegment { segment: i });
            },
        };
        ranges.push(ByteRange { start, end });
        i += 1;
    }
    Ok(ranges)
}

} // verus!
