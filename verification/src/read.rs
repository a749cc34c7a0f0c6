//! The input module as plain values: what a parser of the binary hands over.

use crate::nodes::{DepNode, InputFuncId, SymbolIndex};
use vstd::prelude::*;

verus! {

/// Position of an import in the import section.
pub type ImportId = usize;

/// Position of an export in the export section.
pub type ExportId = usize;

/// The section id of the code section.
pub const CODE_SECTION_ID: u32 = 10;

/// The section id of the data section.
pub const DATA_SECTION_ID: u32 = 11;

/// A half-open range of bytes, from `start` up to `end`.
#[derive(Debug, Clone, Copy, PartialEq, Eq, Structural)]
pub struct ByteRange {
    pub start: usize,
    pub end: usize,
}

impl ByteRange {
    /// Whether `inner` lies within this range.
    pub open spec fn covers(self, inner: ByteRange) -> bool {
        inner.start >= self.start && inner.end <= self.end
    }

    /// Whether `inner` lies within this range.
    pub fn contains_range(&self, inner: &ByteRange) -> (r: bool)
        ensures
            r == self.covers(*inner),
    {
        inner.start >= self.start && inner.end <= self.end
    }

    /// This range as seen from `base`: both ends less `base`. None where
    /// the range starts before `base` or ends before it starts.
    pub fn relative_to(&self, base: usize) -> (r: Option<ByteRange>)
        ensures
            r == if base <= self.start <= self.end {
                Some(
                    (ByteRange {
                        start: (self.start - base) as usize,
                        end: (self.end - base) as usize,
                    }),
                )
            } else {
                None
            },
    {
        if base <= self.start && self.start <= self.end {
            Some(ByteRange { start: self.start - base, end: self.end - base })
        } else {
            None
        }
    }

    /// The number of bytes of the range; none where the end lies before
    /// the start.
    pub open spec fn size(self) -> nat {
        if self.end >= self.start {
            (self.end - self.start) as nat
        } else {
            0
        }
    }

    /// The number of bytes of the range.
    pub fn len(&self) -> (n: usize)
        ensures
            n == self.size(),
    {
        if self.end >= self.start {
            self.end - self.start
        } else {
            0
        }
    }
}

/// What an import or export refers to.
#[derive(Debug, Clone, Copy, PartialEq, Eq, Structural)]
pub enum ExternalKind {
    Func,
    Table,
    Memory,
    Global,
    Tag,
}

/// An entry of the import section.
#[derive(Debug, Clone)]
pub struct Import {
    pub module: String,
    pub name: String,
    pub kind: ExternalKind,
}

/// An entry of the export section. For a function, `index` is its
/// function index.
#[derive(Debug, Clone)]
pub struct Export {
    pub name: String,
    pub kind: ExternalKind,
    pub index: u32,
}

/// Where a defined data symbol lies: in which segment, at which offset
/// within it, and how many bytes it has.
#[derive(Debug, Clone, Copy, PartialEq, Eq, Structural)]
pub struct DefinedDataSymbol {
    pub index: u32,
    pub offset: u32,
    pub size: u32,
}

/// An entry of the symbol table, as far as the splitter reads it.
#[allow(inconsistent_fields)]
#[derive(Debug, Clone)]
pub enum SymbolInfo {
    /// A function symbol with the index of its function.
    Func { index: u32, name: Option<String> },
    /// A data symbol; undefined where `symbol` is `None`.
    Data { name: String, symbol: Option<DefinedDataSymbol> },
    /// A symbol of any other kind.
    Other,
}

/// The symbol table of the `linking` section.
#[derive(Debug, Clone)]
pub struct SymbolTable(pub Vec<SymbolInfo>);

impl SymbolTable {
    /// The node that a symbol stands for: its function for a function
    /// symbol, itself for a data symbol, none for any other.
    pub open spec fn dep_node_of(symbol: SymbolInfo, symbol_index: usize) -> Option<DepNode> {
        match symbol {
            SymbolInfo::Func { index, .. } => Some(DepNode::Function(index as usize)),
            SymbolInfo::Data { .. } => Some(DepNode::DataSymbol(symbol_index)),
            SymbolInfo::Other => None,
        }
    }

    /// The number of symbols.
    pub fn len(&self) -> (n: usize)
        ensures
            n == self.0@.len(),
    {
        self.0.len()
    }

    /// The node that the symbol `symbol_index` stands for.
    pub fn get_symbol_dep_node(&self, symbol_index: usize) -> (r: Option<DepNode>)
        requires
            symbol_index < self.0@.len(),
        ensures
            r == Self::dep_node_of(self.0@[symbol_index as int], symbol_index),
    {
        match &self.0[symbol_index] {
            SymbolInfo::Func { index, .. } => Some(DepNode::Function(*index as usize)),
            SymbolInfo::Data { .. } => Some(DepNode::DataSymbol(symbol_index)),
            SymbolInfo::Other => None,
        }
    }
}

/// How a relocation holds its reference, as far as the splitter writes
/// references anew.
#[derive(Debug, Clone, Copy, PartialEq, Eq, Structural)]
pub enum RelocKind {
    /// The index of a function as an unsigned LEB128 number of five bytes.
    FunctionIndexLeb,
    /// The index of a type, which names no symbol.
    TypeIndexLeb,
    /// Any other form.
    Other,
}

/// The symbol that a relocation of kind `kind` with the index `index`
/// names: the index is that of a symbol but for a reference to a type.
pub fn relocation_symbol(kind: RelocKind, index: usize) -> (r: Option<SymbolIndex>)
    ensures
        r == if kind == RelocKind::TypeIndexLeb {
            None
        } else {
            Some(index)
        },
{
    match kind {
        RelocKind::TypeIndexLeb => None,
        _ => Some(index),
    }
}

/// What a parser of the binary hands out, piece by piece.
#[derive(Debug, Clone, Copy, PartialEq, Eq, Structural)]
pub enum PayloadKind {
    /// The header of the module.
    Version,
    /// One function body of the code section.
    CodeEntry,
    /// The end of the module.
    End,
    /// A section, or the start of the code section.
    Section,
}

/// The position among the sections of the module that the next section
/// has, after a piece of kind `kind` at the position `position`: sections
/// are counted in the order of the binary, the code section once.
pub fn next_section_position(kind: PayloadKind, position: u32) -> (r: Option<u32>)
    ensures
        r == if kind == PayloadKind::Section {
            if position < u32::MAX {
                Some((position + 1) as u32)
            } else {
                None
            }
        } else {
            Some(position)
        },
{
    match kind {
        PayloadKind::Section => position.checked_add(1),
        _ => Some(position),
    }
}

/// The id of the section to which the relocations of a relocation section
/// apply: that of the code section or of the data section where the
/// section is at the position `target` among the sections of the module,
/// `0` for any other section, whose relocations give no edges.
pub fn relocation_section_id(
    target: u32,
    code_section: Option<u32>,
    data_section: Option<u32>,
) -> (r: u32)
    ensures
        r == if code_section == Some(target) {
            CODE_SECTION_ID
        } else if data_section == Some(target) {
            DATA_SECTION_ID
        } else {
            0u32
        },
{
    let at_code = match code_section {
        Some(position) => position == target,
        None => false,
    };
    let at_data = match data_section {
        Some(position) => position == target,
        None => false,
    };
    if at_code {
        CODE_SECTION_ID
    } else if at_data {
        DATA_SECTION_ID
    } else {
        0
    }
}

/// The last of the first `upto` entries that names function `f`.
pub open spec fn last_naming(entries: Seq<(usize, String)>, f: int, upto: int) -> Option<Seq<char>>
    decreases upto,
{
    if upto <= 0 {
        None
    } else if upto <= entries.len() && entries[upto - 1].0 == f {
        Some(entries[upto - 1].1@)
    } else {
        last_naming(entries, f, upto - 1)
    }
}

/// The name of a function as a sequence of characters.
pub open spec fn name_text(name: Option<String>) -> Option<Seq<char>> {
    match name {
        Some(name) => Some(name@),
        None => None,
    }
}

/// The names of the first `func_bound` functions from the entries of a
/// name section, each a function and its name: for each function the name
/// of the last entry that names it. An entry for a function beyond the
/// bound is passed over.
pub fn function_name_table(entries: &Vec<(usize, String)>, func_bound: usize) -> (r: Vec<
    Option<String>,
>)
    ensures
        r@.len() == func_bound,
        forall|f: int|
            0 <= f < func_bound ==> name_text(#[trigger] r@[f]) == last_naming(
                entries@,
                f,
                entries@.len() as int,
            ),
{
    let mut names: Vec<Option<String>> = Vec::new();
    let mut f: usize = 0;
    while f < func_bound
        invariant
            f <= func_bound,
            names@.len() == f,
            forall|g: int| 0 <= g < f ==> #[trigger] names@[g] is None,
        decreases func_bound - f,
    {
        names.push(None);
        f += 1;
    }
    let mut i: usize = 0;
    while i < entries.len()
        invariant
            i <= entries@.len(),
            names@.len() == func_bound,
            forall|f: int|
                0 <= f < func_bound ==> name_text(#[trigger] names@[f]) == last_naming(
                    entries@,
                    f,
                    i as int,
                ),
        decreases entries@.len() - i,
    {
        let index = entries[i].0;
        if index < func_bound {
            names.set(index, Some(entries[i].1.clone()));
        }
        i += 1;
    }
    names
}

/// A relocation entry: a place in the section with id `section_id` that
/// holds a reference to the symbol `symbol`, if it names one. The range is
/// given in the coordinates of the function bodies for the code section,
/// and in those of the data segments for the data section.
#[derive(Debug, Clone, Copy, PartialEq, Eq, Structural)]
pub struct Relocation {
    pub section_id: u32,
    pub kind: RelocKind,
    pub range: ByteRange,
    pub symbol: Option<SymbolIndex>,
}

/// The parts of the input module that the splitter works on.
pub struct InputModule {
    /// The import section, in order.
    pub imports: Vec<Import>,
    /// The export section, in order.
    pub exports: Vec<Export>,
    /// The body of each defined function, in function order.
    pub defined_funcs: Vec<ByteRange>,
    /// The payload of each data segment, without the segment's header.
    pub data_segment_ranges: Vec<ByteRange>,
    /// The symbol table of the `linking` section.
    pub symbols: SymbolTable,
    /// The entries of the relocation sections.
    pub relocations: Vec<Relocation>,
    /// The names of functions by function index, where known.
    pub function_names: Vec<Option<String>>,
    /// The start function.
    pub start: Option<InputFuncId>,
}

/// The number of function imports among the first `upto` of `imports`.
pub open spec fn func_imports_before(imports: Seq<Import>, upto: int) -> nat
    decreases upto,
{
    if upto <= 0 || upto > imports.len() {
        0
    } else {
        func_imports_before(imports, upto - 1) + if imports[upto - 1].kind == ExternalKind::Func {
            1nat
        } else {
            0nat
        }
    }
}

/// There are no more function imports than imports.
pub proof fn lemma_func_imports_bounded(imports: Seq<Import>, upto: int)
    requires
        0 <= upto <= imports.len(),
    ensures
        func_imports_before(imports, upto) <= upto,
    decreases upto,
{
    if upto > 0 {
        lemma_func_imports_bounded(imports, upto - 1);
    }
}

/// The number of function imports among the first imports grows with
/// their number.
pub proof fn lemma_func_imports_grow(imports: Seq<Import>, fewer: int, more: int)
    requires
        0 <= fewer <= more <= imports.len(),
    ensures
        func_imports_before(imports, fewer) <= func_imports_before(imports, more),
    decreases more - fewer,
{
    if fewer < more {
        lemma_func_imports_grow(imports, fewer, more - 1);
    }
}

impl InputModule {
    /// The number of imported functions.
    pub open spec fn imported_func_total(&self) -> nat {
        func_imports_before(self.imports@, self.imports@.len() as int)
    }

    /// The number of functions, imported and defined.
    pub open spec fn func_total(&self) -> nat {
        self.imported_func_total() + self.defined_funcs@.len()
    }

    /// The function that the import `id` brings in: function imports are
    /// numbered in the order of the import section.
    pub open spec fn imported_func_of(&self, id: int) -> Option<InputFuncId> {
        if 0 <= id < self.imports@.len() && self.imports@[id].kind == ExternalKind::Func {
            Some(func_imports_before(self.imports@, id) as usize)
        } else {
            None
        }
    }

    /// The function that the import `id` brings in, if it is a function
    /// import.
    pub fn imported_func(&self, id: ImportId) -> (r: Option<InputFuncId>)
        ensures
            r == self.imported_func_of(id as int),
    {
        if id >= self.imports.len() {
            return None;
        }
        match self.imports[id].kind {
            ExternalKind::Func => {},
            _ => {
                return None;
            },
        }
        let mut count: usize = 0;
        let mut i: usize = 0;
        while i < id
            invariant
                i <= id < self.imports@.len(),
                count == func_imports_before(self.imports@, i as int),
                count <= i,
            decreases id - i,
        {
            match self.imports[i].kind {
                ExternalKind::Func => {
                    count += 1;
                },
                _ => {},
            }
            i += 1;
        }
        Some(count)
    }

    /// The number of functions, imported and defined, if it can be
    /// written down.
    pub fn func_count(&self) -> (r: Option<usize>)
        ensures
            match r {
                Some(n) => n == self.func_total(),
                None => self.func_total() > usize::MAX,
            },
    {
        let imported = self.imported_func_count();
        imported.checked_add(self.defined_funcs.len())
    }

    /// The number of imported functions.
    pub fn imported_func_count(&self) -> (n: usize)
        ensures
            n == self.imported_func_total(),
    {
        let mut count: usize = 0;
        let mut i: usize = 0;
        while i < self.imports.len()
            invariant
                i <= self.imports@.len(),
                count == func_imports_before(self.imports@, i as int),
                count <= i,
            decreases self.imports@.len() - i,
        {
            match self.imports[i].kind {
                ExternalKind::Func => {
                    count += 1;
                },
                _ => {},
            }
            i += 1;
        }
        count
    }
}

} // verus!
