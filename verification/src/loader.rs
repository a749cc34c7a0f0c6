//! The loader script: which chunks and splits it declares, and its text.

use crate::layout::Output;
use crate::identifier::{ident_name, IdentifierView, SplitModuleIdentifier};
use crate::layout::idents;
use crate::text::{join, joined};
use vstd::prelude::*;
use vstd::string::*;

verus! {

/// The beginning of the loader script, before the declarations.
pub const LOADER_PREAMBLE: &'static str = r#"import { initSync } from "./main.js";
function makeLoad(url, deps) {
  let alreadyLoaded = false;
  return async(callbackIndex, callbackData) => {
    if (alreadyLoaded) return;
    for (let dep of deps) {
      await dep();
    }
    let mainExports = undefined;
      try {
        const response = await fetch(url);
        mainExports = initSync(undefined, undefined);
        const imports = {
          env: {
            memory: mainExports.memory,
          },
          __wasm_split: {
            __indirect_function_table: mainExports.__indirect_function_table,
            __stack_pointer: mainExports.__stack_pointer,
            __tls_base: mainExports.__tls_base,
            memory: mainExports.memory,
          },
        };
        const module = await WebAssembly.instantiateStreaming(response, imports);
        alreadyLoaded = true;
        if (callbackIndex === undefined) return;
        mainExports.__indirect_function_table.get(callbackIndex)(
          callbackData,
          true,
        );
      } catch (e) {
        if (callbackIndex === undefined) throw e;
        console.error("Failed to load " + url.href, e);
        if (mainExports === undefined) {
          mainExports = initSync(undefined, undefined);
        }
        mainExports.__indirect_function_table.get(callbackIndex)(
          callbackData,
          false,
        );
      }
  };
}
"#;

/// The declaration of the load function of a split: its name, and the
/// names of the chunks that are loaded before it.
#[derive(Debug, Clone, PartialEq, Eq)]
pub struct LoaderEntry {
    pub name: String,
    pub deps: Vec<String>,
}

/// A `LoaderEntry` with its names as sequences of characters.
pub struct LoaderEntryView {
    pub name: Seq<char>,
    pub deps: Seq<Seq<char>>,
}

impl View for LoaderEntry {
    type V = LoaderEntryView;

    open spec fn view(&self) -> LoaderEntryView {
        LoaderEntryView { name: self.name@, deps: name_views(self.deps@) }
    }
}

/// What the loader script declares: a load function for each chunk, then
/// one for each split.
#[derive(Debug, Clone, PartialEq, Eq)]
pub struct LoaderManifest {
    pub chunks: Vec<String>,
    pub splits: Vec<LoaderEntry>,
}

/// The names of a list of strings.
pub open spec fn name_views(names: Seq<String>) -> Seq<Seq<char>> {
    Seq::new(names.len(), |i: int| names[i]@)
}

/// The views of a list of entries.
pub open spec fn entry_views(entries: Seq<LoaderEntry>) -> Seq<LoaderEntryView> {
    Seq::new(entries.len(), |i: int| entries[i]@)
}

/// Whether `ident` is a chunk whose key holds the split `name`.
pub open spec fn is_chunk_of(ident: IdentifierView, name: Seq<char>) -> bool {
    match ident {
        IdentifierView::Chunk(key) => key.contains(name),
        _ => false,
    }
}

/// The names of the chunks among the first `upto` output modules, in
/// their order.
pub open spec fn chunk_names(ids: Seq<IdentifierView>, upto: int) -> Seq<Seq<char>>
    decreases upto,
{
    if upto <= 0 || upto > ids.len() {
        Seq::empty()
    } else if ids[upto - 1] is Chunk {
        chunk_names(ids, upto - 1).push(ident_name(ids[upto - 1]))
    } else {
        chunk_names(ids, upto - 1)
    }
}

/// The names of the chunks among the first `upto` output modules whose
/// key holds the split `name`, in their order.
pub open spec fn chunks_of(ids: Seq<IdentifierView>, name: Seq<char>, upto: int) -> Seq<Seq<char>>
    decreases upto,
{
    if upto <= 0 || upto > ids.len() {
        Seq::empty()
    } else if is_chunk_of(ids[upto - 1], name) {
        chunks_of(ids, name, upto - 1).push(ident_name(ids[upto - 1]))
    } else {
        chunks_of(ids, name, upto - 1)
    }
}

/// The entries of the splits among the first `upto` output modules, the
/// last first, each with the chunks of all the output modules whose key
/// holds it.
pub open spec fn split_entries(ids: Seq<IdentifierView>, upto: int) -> Seq<LoaderEntryView>
    decreases upto,
{
    if upto <= 0 || upto > ids.len() {
        Seq::empty()
    } else {
        match ids[upto - 1] {
            IdentifierView::Split(name) => seq![
                LoaderEntryView { name, deps: chunks_of(ids, name, ids.len() as int) },
            ] + split_entries(ids, upto - 1),
            _ => split_entries(ids, upto - 1),
        }
    }
}

/// Whether `key` holds `name`.
fn key_holds(key: &Vec<String>, name: &String) -> (r: bool)
    ensures
        r == crate::order::views(key@).contains(name@),
{
    let ghost all = crate::order::views(key@);
    let mut i: usize = 0;
    while i < key.len()
        invariant
            i <= key@.len(),
            all == crate::order::views(key@),
            forall|j: int| 0 <= j < i ==> all[j] != name@,
        decreases key@.len() - i,
    {
        if key[i] == *name {
            assert(all[i as int] == name@);
            return true;
        }
        i += 1;
    }
    false
}

/// The names of the chunks, in their order, whose key holds the split
/// `name`.
fn deps_of(outs: &Vec<Output>, name: &String) -> (r: Vec<String>)
    ensures
        name_views(r@) == chunks_of(idents(outs@), name@, outs@.len() as int),
{
    let ghost ids = idents(outs@);
    let mut deps: Vec<String> = Vec::new();
    let mut i: usize = 0;
    assert(name_views(deps@) =~= chunks_of(ids, name@, 0));
    while i < outs.len()
        invariant
            i <= outs@.len(),
            ids == idents(outs@),
            name_views(deps@) == chunks_of(ids, name@, i as int),
        decreases outs@.len() - i,
    {
        let ghost before = name_views(deps@);
        assert(ids[i as int] == outs@[i as int].0@);
        match &outs[i].0 {
            SplitModuleIdentifier::Chunk(key) => {
                if key_holds(key, name) {
                    deps.push(outs[i].0.name());
                    assert(name_views(deps@) =~= before.push(ident_name(ids[i as int])));
                }
            },
            _ => {},
        }
        i += 1;
    }
    deps
}

/// What the loader script declares for the output modules `outs`: a load
/// function for each chunk, in the order of the chunks, and then one for
/// each split, the last split first, that loads the chunks whose key holds
/// the split before the split itself.
pub fn loader_manifest(outs: &Vec<Output>) -> (r: LoaderManifest)
    ensures
        name_views(r.chunks@) == chunk_names(idents(outs@), outs@.len() as int),
        entry_views(r.splits@) == split_entries(idents(outs@), outs@.len() as int),
{
    let ghost ids = idents(outs@);
    let mut chunks: Vec<String> = Vec::new();
    let mut i: usize = 0;
    assert(name_views(chunks@) =~= chunk_names(ids, 0));
    while i < outs.len()
        invariant
            i <= outs@.len(),
            ids == idents(outs@),
            name_views(chunks@) == chunk_names(ids, i as int),
        decreases outs@.len() - i,
    {
        let ghost before = name_views(chunks@);
        assert(ids[i as int] == outs@[i as int].0@);
        match &outs[i].0 {
            SplitModuleIdentifier::Chunk(_) => {
                chunks.push(outs[i].0.name());
                assert(name_views(chunks@) =~= before.push(ident_name(ids[i as int])));
            },
            _ => {},
        }
        i += 1;
    }
    let mut splits: Vec<LoaderEntry> = Vec::new();
    let mut left: usize = outs.len();
    assert(entry_views(splits@) + split_entries(ids, left as int) =~= split_entries(
        ids,
        outs@.len() as int,
    ));
    while left > 0
        invariant
            left <= outs@.len(),
            ids == idents(outs@),
            entry_views(splits@) + split_entries(ids, left as int) == split_entries(
                ids,
                outs@.len() as int,
            ),
        decreases left,
    {
        let ghost before = entry_views(splits@);
        assert(ids[left - 1] == outs@[left - 1].0@);
        match &outs[left - 1].0 {
            SplitModuleIdentifier::Split(name) => {
                let entry = LoaderEntry { name: name.clone(), deps: deps_of(outs, name) };
                proof {
                    let rest = split_entries(ids, left - 1);
                    assert(split_entries(ids, left as int) == seq![entry@] + rest);
                    assert(before.push(entry@) + rest =~= before + (seq![entry@] + rest));
                }
                splits.push(entry);
                assert(entry_views(splits@) =~= before.push(entry@));
            },
            _ => {},
        }
        left -= 1;
    }
    assert(entry_views(splits@) + Seq::<LoaderEntryView>::empty() =~= entry_views(splits@));
    LoaderManifest { chunks, splits }
}

/// The declaration of the load function of the chunk `name`.
pub open spec fn chunk_line(name: Seq<char>) -> Seq<char> {
    "const __wasm_split_load_"@ + name + " = makeLoad(new URL(\"./"@ + name
        + ".wasm\", import.meta.url), []);\n"@
}

/// The names of the load functions of `deps`, with `, ` between each two.
pub open spec fn deps_text(deps: Seq<Seq<char>>) -> Seq<char> {
    joined(Seq::new(deps.len(), |i: int| "__wasm_split_load_"@ + deps[i]), ", "@)
}

/// The declaration of the load function of a split.
pub open spec fn split_line(entry: LoaderEntryView) -> Seq<char> {
    "export const __wasm_split_load_"@ + entry.name + " = makeLoad(new URL(\"./"@ + entry.name
        + ".wasm\", import.meta.url), ["@ + deps_text(entry.deps) + "]);\n"@
}

/// The declarations of the first `upto` chunks, one after the other.
pub open spec fn chunk_lines(chunks: Seq<Seq<char>>, upto: int) -> Seq<char>
    decreases upto,
{
    if upto <= 0 || upto > chunks.len() {
        Seq::empty()
    } else {
        chunk_lines(chunks, upto - 1) + chunk_line(chunks[upto - 1])
    }
}

/// The declarations of the first `upto` splits, one after the other.
pub open spec fn split_lines(splits: Seq<LoaderEntryView>, upto: int) -> Seq<char>
    decreases upto,
{
    if upto <= 0 || upto > splits.len() {
        Seq::empty()
    } else {
        split_lines(splits, upto - 1) + split_line(splits[upto - 1])
    }
}

/// The text of the loader script: the preamble, the declarations of the
/// chunks, then those of the splits.
pub open spec fn script_text(chunks: Seq<Seq<char>>, splits: Seq<LoaderEntryView>) -> Seq<char> {
    LOADER_PREAMBLE@ + chunk_lines(chunks, chunks.len() as int) + split_lines(
        splits,
        splits.len() as int,
    )
}

impl LoaderManifest {
    /// The text of the loader script.
    pub fn script(&self) -> (r: String)
        ensures
            r@ == script_text(name_views(self.chunks@), entry_views(self.splits@)),
    {
        let ghost chunks = name_views(self.chunks@);
        let ghost splits = entry_views(self.splits@);
        let mut text = String::from_str(LOADER_PREAMBLE);
        let mut i: usize = 0;
        assert(text@ + chunk_lines(chunks, 0) =~= text@);
        while i < self.chunks.len()
            invariant
                i <= self.chunks@.len(),
                chunks == name_views(self.chunks@),
                text@ == LOADER_PREAMBLE@ + chunk_lines(chunks, i as int),
            decreases self.chunks@.len() - i,
        {
            let name = self.chunks[i].as_str();
            let ghost before = text@;
            text.append("const __wasm_split_load_");
            text.append(name);
            text.append(" = makeLoad(new URL(\"./");
            text.append(name);
            text.append(".wasm\", import.meta.url), []);\n");
            proof {
                assert(chunks[i as int] == name@);
                assert(text@ =~= before + chunk_line(name@));
                assert(text@ =~= LOADER_PREAMBLE@ + chunk_lines(chunks, i + 1));
            }
            i += 1;
        }
        let ghost head = text@;
        let mut k: usize = 0;
        assert(text@ + split_lines(splits, 0) =~= text@);
        while k < self.splits.len()
            invariant
                k <= self.splits@.len(),
                splits == entry_views(self.splits@),
                text@ == head + split_lines(splits, k as int),
            decreases self.splits@.len() - k,
        {
            let entry = &self.splits[k];
            let name = entry.name.as_str();
            let ghost before = text@;
            let deps = load_names(&entry.deps);
            text.append("export const __wasm_split_load_");
            text.append(name);
            text.append(" = makeLoad(new URL(\"./");
            text.append(name);
            text.append(".wasm\", import.meta.url), [");
            text.append(deps.as_str());
            text.append("]);\n");
            proof {
                assert(splits[k as int] == entry@);
                assert(text@ =~= before + split_line(entry@));
                assert(text@ =~= head + split_lines(splits, k + 1));
            }
            k += 1;
        }
        assert(text@ =~= script_text(chunks, splits));
        text
    }
}

/// The names of the load functions of `deps`, with `, ` between each two.
fn load_names(deps: &Vec<String>) -> (r: String)
    ensures
        r@ == deps_text(name_views(deps@)),
{
    let mut names: Vec<String> = Vec::new();
    let mut i: usize = 0;
    while i < deps.len()
        invariant
            i <= deps@.len(),
            names@.len() == i,
            forall|j: int|
                0 <= j < i ==> (#[trigger] names@[j])@ == "__wasm_split_load_"@ + deps@[j]@,
        decreases deps@.len() - i,
    {
        let mut name = String::from_str("__wasm_split_load_");
        name.append(deps[i].as_str());
        names.push(name);
        i += 1;
    }
    assert(Seq::new(names@.len(), |i: int| names@[i]@) =~= Seq::new(
        name_views(deps@).len(),
        |i: int| "__wasm_split_load_"@ + name_views(deps@)[i],
    ));
    join(&names, ", ")
}

} // verus!
