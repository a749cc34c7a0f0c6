//! Moving what several splits reach into chunks.

use crate::identifier::{IdentifierView, SplitModuleIdentifier};
use crate::layout::{as_ints, Output, OutputModuleInfo};
use crate::nodes::{DepNode, NodeMap, NodeSet};
use crate::order::{
    ascending, lemma_ascending_same_members, lemma_names_irreflexive, lemma_names_total,
    lemma_names_transitive, lemma_str_irreflexive, name_less, names_less, names_lt, views,
};
use crate::seqs::{lemma_push_contains, lemma_selects_next, selects};
use vstd::prelude::*;

verus! {

/// Whether the splits that reach `n` are exactly those named in `key`,
/// where split `k` is named `names[k]` and reaches `reach[k]`.
pub open spec fn exactly(
    reach: Seq<Set<DepNode>>,
    names: Seq<Seq<char>>,
    n: DepNode,
    key: Seq<Seq<char>>,
) -> bool {
    forall|k: int|
        0 <= k < reach.len() ==> ((#[trigger] reach[k]).contains(n) <==> key.contains(names[k]))
}

/// Whether some split reaches `n`.
pub open spec fn reached(reach: Seq<Set<DepNode>>, n: DepNode) -> bool {
    exists|k: int| 0 <= k < reach.len() && (#[trigger] reach[k]).contains(n)
}

/// Whether `key` can name a chunk: two or more of `names`, in ascending
/// order.
pub open spec fn is_chunk_key(names: Seq<Seq<char>>, key: Seq<Seq<char>>) -> bool {
    &&& key.len() >= 2
    &&& ascending(name_less(), key)
    &&& forall|j: int| 0 <= j < key.len() ==> names.contains(#[trigger] key[j])
}

/// Whether the chunk named by `key` is among `chunks` and holds `n`.
pub open spec fn in_chunk(chunks: Seq<Output>, key: Seq<Seq<char>>, n: DepNode) -> bool {
    exists|c: int|
        0 <= c < chunks.len() && (#[trigger] chunks[c]).0@ == IdentifierView::Chunk(key)
            && chunks[c].1.included_symbols@.contains(n)
}

/// Whether some split of `splits` holds `n`.
pub open spec fn in_split(splits: Seq<Output>, n: DepNode) -> bool {
    exists|k: int| 0 <= k < splits.len() && (#[trigger] splits[k]).1.included_symbols@.contains(n)
}

/// The keys of a list of chunks.
pub open spec fn chunk_keys(chunks: Seq<Output>) -> Seq<Seq<Seq<char>>> {
    Seq::new(
        chunks.len(),
        |c: int|
            match chunks[c].0@ {
                IdentifierView::Chunk(key) => key,
                _ => Seq::empty(),
            },
    )
}

/// Whether `chunks` is a list of chunks over the splits `names`, for a
/// universe of the given size: each a chunk with a key, holding something
/// and nothing but its nodes, and the chunks in ascending order of their
/// keys.
pub open spec fn chunks_ok(
    names: Seq<Seq<char>>,
    chunks: Seq<Output>,
    func_bound: nat,
    data_bound: nat,
) -> bool {
    &&& forall|c: int|
        0 <= c < chunks.len() ==> {
            &&& (#[trigger] chunks[c]).0@ is Chunk
            &&& is_chunk_key(names, chunk_keys(chunks)[c])
            &&& chunks[c].1.included_symbols.func_bound() == func_bound
            &&& chunks[c].1.included_symbols.data_bound() == data_bound
            &&& exists|n: DepNode| chunks[c].1.included_symbols@.contains(n)
            &&& chunks[c].1.parents@ == Map::<DepNode, DepNode>::empty()
            &&& chunks[c].1.shared_imports@.len() == 0
            &&& chunks[c].1.split_points@.len() == 0
        }
    &&& ascending(
        |a: Seq<Seq<char>>, b: Seq<Seq<char>>| names_less(a, b),
        chunk_keys(chunks),
    )
}

/// Whether `splits` are the splits `names`, one for each name, for a
/// universe of the given size.
pub open spec fn splits_ok(
    names: Seq<Seq<char>>,
    splits: Seq<Output>,
    func_bound: nat,
    data_bound: nat,
) -> bool {
    &&& splits.len() == names.len()
    &&& forall|k: int|
        0 <= k < splits.len() ==> {
            &&& (#[trigger] splits[k]).0@ == IdentifierView::Split(names[k])
            &&& splits[k].1.included_symbols.func_bound() == func_bound
            &&& splits[k].1.included_symbols.data_bound() == data_bound
        }
}

/// Whether `n` is where it belongs: a split that holds it is the only one
/// to reach it, a chunk that holds it has exactly the splits that reach it
/// in its key, and if any split reaches it, a split or a chunk holds it.
pub open spec fn placed(
    reach: Seq<Set<DepNode>>,
    names: Seq<Seq<char>>,
    splits: Seq<Output>,
    chunks: Seq<Output>,
    n: DepNode,
) -> bool {
    &&& forall|k: int|
        0 <= k < splits.len() && (#[trigger] splits[k]).1.included_symbols@.contains(n)
            ==> exactly(reach, names, n, seq![names[k]])
    &&& forall|key: Seq<Seq<char>>| #[trigger]
        in_chunk(chunks, key, n) ==> exactly(reach, names, n, key)
    &&& reached(reach, n) ==> in_split(splits, n) || exists|key: Seq<Seq<char>>| #[trigger]
        in_chunk(chunks, key, n)
}

/// Whether `n` is still where the traversals found it: in each split that
/// reaches it, and in no chunk.
pub open spec fn untouched(
    reach: Seq<Set<DepNode>>,
    splits: Seq<Output>,
    chunks: Seq<Output>,
    n: DepNode,
) -> bool {
    &&& forall|k: int|
        0 <= k < splits.len() ==> ((#[trigger] splits[k]).1.included_symbols@.contains(n)
            <==> reach[k].contains(n))
    &&& forall|key: Seq<Seq<char>>| !#[trigger] in_chunk(chunks, key, n)
}

/// Whether two lists of outputs differ at most in whether they hold `n`:
/// as many outputs, with the same identifiers and the same other fields,
/// holding the same nodes but for `n`.
pub open spec fn same_but(before: Seq<Output>, after: Seq<Output>, n: DepNode) -> bool {
    &&& before.len() == after.len()
    &&& forall|k: int|
        0 <= k < before.len() ==> {
            &&& (#[trigger] after[k]).0 == before[k].0
            &&& after[k].1.parents == before[k].1.parents
            &&& after[k].1.shared_imports == before[k].1.shared_imports
            &&& after[k].1.split_points == before[k].1.split_points
            &&& after[k].1.included_symbols.func_bound()
                == before[k].1.included_symbols.func_bound()
            &&& after[k].1.included_symbols.data_bound()
                == before[k].1.included_symbols.data_bound()
            &&& forall|m: DepNode|
                m != n ==> after[k].1.included_symbols@.contains(m)
                    == before[k].1.included_symbols@.contains(m)
        }
}

/// The splits that hold `n`: their positions in ascending order, and
/// their names.
fn owners_of(splits: &Vec<Output>, n: DepNode, Ghost(names): Ghost<Seq<Seq<char>>>) -> (r: (
    Vec<usize>,
    Vec<String>,
))
    requires
        splits@.len() == names.len(),
        forall|k: int|
            0 <= k < splits@.len()
                ==> (#[trigger] splits@[k]).0@ == IdentifierView::Split(names[k]),
    ensures
        selects(
            as_ints(r.0@),
            splits@.len() as int,
            |k: int| 0 <= k < splits@.len() && splits@[k].1.included_symbols@.contains(n),
        ),
        r.1@.len() == r.0@.len(),
        forall|j: int| 0 <= j < r.0@.len() ==> (#[trigger] r.1@[j])@ == names[r.0@[j] as int],
{
    let ghost holds = |k: int| 0 <= k < splits@.len() && splits@[k].1.included_symbols@.contains(n);
    let mut ids: Vec<usize> = Vec::new();
    let mut key: Vec<String> = Vec::new();
    let mut k: usize = 0;
    while k < splits.len()
        invariant
            k <= splits@.len(),
            splits@.len() == names.len(),
            forall|k: int|
                0 <= k < splits@.len() ==> (#[trigger] splits@[k]).0@ == IdentifierView::Split(
                    names[k],
                ),
            holds == |k: int| 0 <= k < splits@.len() && splits@[k].1.included_symbols@.contains(n),
            selects(as_ints(ids@), k as int, holds),
            key@.len() == ids@.len(),
            forall|j: int| 0 <= j < ids@.len() ==> (#[trigger] key@[j])@ == names[ids@[j] as int],
        decreases splits@.len() - k,
    {
        proof {
            lemma_selects_next(as_ints(ids@), k as int, holds);
        }
        if splits[k].1.included_symbols.contains(n) {
            let ghost before = as_ints(ids@);
            ids.push(k);
            assert(as_ints(ids@) =~= before.push(k as int));
            match &splits[k].0 {
                SplitModuleIdentifier::Split(name) => {
                    key.push(name.clone());
                },
                _ => {
                    assert(false);
                },
            }
        }
        k += 1;
    }
    (ids, key)
}

/// Takes `n` out of the splits at the positions `ids`.
fn take_from_splits(splits: &mut Vec<Output>, ids: &Vec<usize>, n: DepNode)
    requires
        forall|j: int| 0 <= j < ids@.len() ==> (#[trigger] ids@[j]) < old(splits)@.len(),
    ensures
        same_but(old(splits)@, final(splits)@, n),
        forall|k: usize|
            k < final(splits)@.len()
                ==> ((#[trigger] final(splits)@[k as int]).1.included_symbols@.contains(
                n,
            ) <==> old(splits)@[k as int].1.included_symbols@.contains(n) && !ids@.contains(k)),
{
    let mut j: usize = 0;
    while j < ids.len()
        invariant
            j <= ids@.len(),
            forall|j: int| 0 <= j < ids@.len() ==> (#[trigger] ids@[j]) < old(splits)@.len(),
            same_but(old(splits)@, splits@, n),
            forall|k: usize|
                k < splits@.len()
                    ==> ((#[trigger] splits@[k as int]).1.included_symbols@.contains(n)
                    <==> old(splits)@[k as int].1.included_symbols@.contains(n) && !ids@.take(
                    j as int,
                ).contains(k)),
        decreases ids@.len() - j,
    {
        let k = ids[j];
        let ghost before = splits@;
        splits[k].1.included_symbols.remove(n);
        proof {
            assert(ids@.take(j + 1) =~= ids@.take(j as int).push(k));
            assert forall|i: usize| i < splits@.len()
                implies ((#[trigger] splits@[i as int]).1.included_symbols@.contains(
                n,
            ) <==> old(splits)@[i as int].1.included_symbols@.contains(n) && !ids@.take(
                j + 1,
            ).contains(i)) by {
                lemma_push_contains(ids@.take(j as int), k, i);
                if i != k {
                    assert(splits@[i as int] == before[i as int]);
                }
            }
            assert forall|i: int| 0 <= i < splits@.len() implies {
                &&& (#[trigger] splits@[i]).0 == old(splits)@[i].0
                &&& splits@[i].1.parents == old(splits)@[i].1.parents
                &&& splits@[i].1.shared_imports == old(splits)@[i].1.shared_imports
                &&& splits@[i].1.split_points == old(splits)@[i].1.split_points
                &&& splits@[i].1.included_symbols.func_bound()
                    == old(splits)@[i].1.included_symbols.func_bound()
                &&& splits@[i].1.included_symbols.data_bound()
                    == old(splits)@[i].1.included_symbols.data_bound()
                &&& forall|m: DepNode|
                    m != n ==> splits@[i].1.included_symbols@.contains(m) == old(
                        splits,
                    )@[i].1.included_symbols@.contains(m)
            } by {
                if i != k {
                    assert(splits@[i] == before[i]);
                }
            }
        }
        j += 1;
    }
    assert(ids@.take(ids@.len() as int) =~= ids@);
}

/// Whether `id` is a chunk whose key comes before `key`.
fn chunk_before_key(id: &SplitModuleIdentifier, key: &Vec<String>) -> (r: bool)
    ensures
        r == match id@ {
            IdentifierView::Chunk(other) => names_less(other, views(key@)),
            _ => false,
        },
{
    match id {
        SplitModuleIdentifier::Chunk(other) => names_lt(other, key),
        _ => false,
    }
}

/// Whether `id` is a chunk whose key comes after `key`.
fn key_before_chunk(key: &Vec<String>, id: &SplitModuleIdentifier) -> (r: bool)
    ensures
        r == match id@ {
            IdentifierView::Chunk(other) => names_less(views(key@), other),
            _ => false,
        },
{
    match id {
        SplitModuleIdentifier::Chunk(other) => names_lt(key, other),
        _ => false,
    }
}

/// Puts `n` into the chunk named by `key`, which is made if it is not
/// there yet, at its place in the order of the chunks.
fn put_in_chunk(
    chunks: &mut Vec<Output>,
    key: Vec<String>,
    n: DepNode,
    func_bound: usize,
    data_bound: usize,
    Ghost(names): Ghost<Seq<Seq<char>>>,
)
    requires
        chunks_ok(names, old(chunks)@, func_bound as nat, data_bound as nat),
        is_chunk_key(names, views(key@)),
        NodeSet::in_bounds(n, func_bound as nat, data_bound as nat),
    ensures
        chunks_ok(names, final(chunks)@, func_bound as nat, data_bound as nat),
        in_chunk(final(chunks)@, views(key@), n),
        forall|other: Seq<Seq<char>>, m: DepNode|
            (other != views(key@) || m != n) ==> #[trigger] in_chunk(final(chunks)@, other, m)
                == in_chunk(old(chunks)@, other, m),
{
    let ghost x = views(key@);
    let ghost before = chunks@;
    let ghost keys = chunk_keys(before);
    let mut p: usize = 0;
    while p < chunks.len() && chunk_before_key(&chunks[p].0, &key)
        invariant
            p <= chunks@.len(),
            chunks@ == before,
            keys == chunk_keys(before),
            x == views(key@),
            chunks_ok(names, before, func_bound as nat, data_bound as nat),
            forall|j: int| 0 <= j < p ==> names_less(#[trigger] keys[j], x),
        decreases chunks@.len() - p,
    {
        assert(before[p as int].0@ is Chunk);
        assert(keys[p as int] == before[p as int].0@->Chunk_0);
        p += 1;
    }
    if p < chunks.len() && !key_before_chunk(&key, &chunks[p].0) {
        proof {
            assert(before[p as int].0@ is Chunk);
            assert(keys[p as int] == before[p as int].0@->Chunk_0);
            if keys[p as int] != x {
                lemma_names_total(keys[p as int], x);
            }
            assert(before[p as int].0@ == IdentifierView::Chunk(x));
        }
        chunks[p].1.included_symbols.insert(n);
        proof {
            let after = chunks@;
            assert(chunk_keys(after) =~= keys);
            assert forall|c: int| 0 <= c < after.len() implies {
                &&& (#[trigger] after[c]).0@ is Chunk
                &&& is_chunk_key(names, chunk_keys(after)[c])
                &&& after[c].1.included_symbols.func_bound() == func_bound as nat
                &&& after[c].1.included_symbols.data_bound() == data_bound as nat
                &&& exists|n: DepNode| after[c].1.included_symbols@.contains(n)
                &&& after[c].1.parents@ == Map::<DepNode, DepNode>::empty()
                &&& after[c].1.shared_imports@.len() == 0
                &&& after[c].1.split_points@.len() == 0
            } by {
                assert(before[c].0@ is Chunk);
                assert(is_chunk_key(names, keys[c]));
                if c == p {
                    assert(after[c].1.included_symbols@.contains(n));
                } else {
                    assert(after[c] == before[c]);
                }
            }
            assert(in_chunk(after, x, n)) by {
                assert(after[p as int].0@ == IdentifierView::Chunk(x));
            }
            assert forall|other: Seq<Seq<char>>, m: DepNode| (other != x || m != n)
                implies #[trigger] in_chunk(
                after,
                other,
                m,
            ) == in_chunk(before, other, m) by {
                if in_chunk(after, other, m) {
                    let c = choose|c: int|
                        0 <= c < after.len() && (#[trigger] after[c]).0@ == IdentifierView::Chunk(
                            other,
                        ) && after[c].1.included_symbols@.contains(m);
                    if c != p {
                        assert(after[c] == before[c]);
                    }
                    assert(before[c].0@ == IdentifierView::Chunk(other));
                    assert(before[c].1.included_symbols@.contains(m));
                }
                if in_chunk(before, other, m) {
                    let c = choose|c: int|
                        0 <= c < before.len() && (#[trigger] before[c]).0@ == IdentifierView::Chunk(
                            other,
                        ) && before[c].1.included_symbols@.contains(m);
                    if c != p {
                        assert(after[c] == before[c]);
                    }
                    assert(after[c].0@ == IdentifierView::Chunk(other));
                    assert(after[c].1.included_symbols@.contains(m));
                }
            }
        }
    } else {
        let mut included = NodeSet::new(func_bound, data_bound);
        included.insert(n);
        let info = OutputModuleInfo {
            included_symbols: included,
            parents: NodeMap::new(func_bound, data_bound),
            shared_imports: Vec::new(),
            split_points: Vec::new(),
        };
        let entry: Output = (SplitModuleIdentifier::Chunk(key), info);
        let ghost made = entry;
        chunks.insert(p, entry);
        proof {
            let after = chunks@;
            let new_keys = chunk_keys(after);
            assert(made.0@ == IdentifierView::Chunk(x));
            assert(after =~= before.insert(p as int, made));
            assert(new_keys =~= keys.insert(p as int, x));
            if p < keys.len() {
                assert(before[p as int].0@ is Chunk);
                assert(keys[p as int] == before[p as int].0@->Chunk_0);
                assert(names_less(x, keys[p as int]));
            }
            assert forall|i: int, j: int| 0 <= i < j < new_keys.len() implies names_less(
                #[trigger] new_keys[i],
                #[trigger] new_keys[j],
            ) by {
                let lt = |a: Seq<Seq<char>>, b: Seq<Seq<char>>| names_less(a, b);
                if j < p {
                    assert(lt(keys[i], keys[j]));
                } else if j == p {
                } else if i < p {
                    assert(lt(keys[i], keys[j - 1]));
                } else if i == p {
                    if j - 1 > p {
                        assert(lt(keys[p as int], keys[j - 1]));
                        lemma_names_transitive(x, keys[p as int], keys[j - 1]);
                    }
                } else {
                    assert(lt(keys[i - 1], keys[j - 1]));
                }
            }
            assert forall|c: int| 0 <= c < after.len() implies {
                &&& (#[trigger] after[c]).0@ is Chunk
                &&& is_chunk_key(names, chunk_keys(after)[c])
                &&& after[c].1.included_symbols.func_bound() == func_bound as nat
                &&& after[c].1.included_symbols.data_bound() == data_bound as nat
                &&& exists|n: DepNode| after[c].1.included_symbols@.contains(n)
                &&& after[c].1.parents@ == Map::<DepNode, DepNode>::empty()
                &&& after[c].1.shared_imports@.len() == 0
                &&& after[c].1.split_points@.len() == 0
            } by {
                if c == p {
                    assert(after[c].1.included_symbols@.contains(n));
                } else {
                    let h = if c < p {
                        c
                    } else {
                        c - 1
                    };
                    assert(after[c] == before[h]);
                    assert(before[h].0@ is Chunk);
                    assert(is_chunk_key(names, keys[h]));
                }
            }
            assert(in_chunk(after, x, n)) by {
                assert(after[p as int].0@ == IdentifierView::Chunk(x));
                assert(after[p as int].1.included_symbols@.contains(n));
            }
            assert forall|other: Seq<Seq<char>>, m: DepNode| (other != x || m != n)
                implies #[trigger] in_chunk(
                after,
                other,
                m,
            ) == in_chunk(before, other, m) by {
                if in_chunk(after, other, m) {
                    let c = choose|c: int|
                        0 <= c < after.len() && (#[trigger] after[c]).0@ == IdentifierView::Chunk(
                            other,
                        ) && after[c].1.included_symbols@.contains(m);
                    assert(c != p);
                    let h = if c < p {
                        c
                    } else {
                        c - 1
                    };
                    assert(after[c] == before[h]);
                    assert(before[h].0@ == IdentifierView::Chunk(other));
                }
                if in_chunk(before, other, m) {
                    let h = choose|h: int|
                        0 <= h < before.len() && (#[trigger] before[h]).0@ == IdentifierView::Chunk(
                            other,
                        ) && before[h].1.included_symbols@.contains(m);
                    let c = if h < p {
                        h
                    } else {
                        h + 1
                    };
                    assert(after[c] == before[h]);
                    assert(after[c].0@ == IdentifierView::Chunk(other));
                }
            }
        }
    }
}

/// Names in ascending order are all different.
pub proof fn lemma_ascending_distinct(names: Seq<Seq<char>>)
    requires
        ascending(name_less(), names),
    ensures
        forall|i: int, j: int|
            0 <= i < names.len() && 0 <= j < names.len() && i != j ==> #[trigger] names[i]
                != #[trigger] names[j],
{
    assert forall|i: int, j: int|
        0 <= i < names.len() && 0 <= j < names.len() && i != j implies #[trigger] names[i]
        != #[trigger] names[j] by {
        lemma_str_irreflexive(names[i]);
        if i < j {
            assert(name_less()(names[i], names[j]));
        } else {
            assert(name_less()(names[j], names[i]));
        }
    }
}

/// Whether two lists of outputs have the same identifiers and the same
/// fields but for what they hold.
pub open spec fn same_fields(before: Seq<Output>, after: Seq<Output>) -> bool {
    &&& before.len() == after.len()
    &&& forall|k: int|
        0 <= k < before.len() ==> {
            &&& (#[trigger] after[k]).0 == before[k].0
            &&& after[k].1.parents == before[k].1.parents
            &&& after[k].1.shared_imports == before[k].1.shared_imports
            &&& after[k].1.split_points == before[k].1.split_points
        }
}

/// Puts `n` where it belongs: into the chunk of the splits that hold it,
/// and out of these splits, if they are two or more.
fn place_node(
    splits: &mut Vec<Output>,
    chunks: &mut Vec<Output>,
    n: DepNode,
    func_bound: usize,
    data_bound: usize,
    Ghost(reach): Ghost<Seq<Set<DepNode>>>,
    Ghost(names): Ghost<Seq<Seq<char>>>,
)
    requires
        splits_ok(names, old(splits)@, func_bound as nat, data_bound as nat),
        chunks_ok(names, old(chunks)@, func_bound as nat, data_bound as nat),
        reach.len() == names.len(),
        ascending(name_less(), names),
        NodeSet::in_bounds(n, func_bound as nat, data_bound as nat),
        untouched(reach, old(splits)@, old(chunks)@, n),
    ensures
        splits_ok(names, final(splits)@, func_bound as nat, data_bound as nat),
        chunks_ok(names, final(chunks)@, func_bound as nat, data_bound as nat),
        same_but(old(splits)@, final(splits)@, n),
        placed(reach, names, final(splits)@, final(chunks)@, n),
        forall|other: Seq<Seq<char>>, m: DepNode|
            m != n ==> #[trigger] in_chunk(final(chunks)@, other, m) == in_chunk(
                old(chunks)@,
                other,
                m,
            ),
{
    let ghost holds = |k: int|
        0 <= k < old(splits)@.len() && old(splits)@[k].1.included_symbols@.contains(n);
    let (ids, key) = owners_of(splits, n, Ghost(names));
    let ghost x = views(key@);
    proof {
        lemma_ascending_distinct(names);
        assert forall|k: int| 0 <= k < reach.len() implies ((#[trigger] reach[k]).contains(n)
            <==> x.contains(names[k])) by {
            assert(old(splits)@[k].1.included_symbols@.contains(n) == reach[k].contains(n));
            if reach[k].contains(n) {
                assert(holds(k));
                assert(as_ints(ids@).contains(k));
                let j = choose|j: int| 0 <= j < ids@.len() && as_ints(ids@)[j] == k;
                assert(x[j] == names[k]);
            }
            if x.contains(names[k]) {
                let j = choose|j: int| 0 <= j < x.len() && x[j] == names[k];
                assert(x[j] == key@[j]@);
                assert(0 <= as_ints(ids@)[j] < names.len() && holds(as_ints(ids@)[j]));
                assert(as_ints(ids@)[j] == k);
            }
        }
        assert(exactly(reach, names, n, x));
    }
    if ids.len() >= 2 {
        proof {
            assert forall|i: int, j: int| 0 <= i < j < x.len() implies name_less()(
                #[trigger] x[i],
                #[trigger] x[j],
            ) by {
                assert(x[i] == key@[i]@ && x[j] == key@[j]@);
                assert(as_ints(ids@)[i] < as_ints(ids@)[j]);
                assert(0 <= as_ints(ids@)[i] && as_ints(ids@)[j] < names.len());
            }
            assert forall|j: int| 0 <= j < x.len() implies names.contains(#[trigger] x[j]) by {
                assert(x[j] == key@[j]@);
                assert(0 <= as_ints(ids@)[j] < names.len());
            }
            assert forall|j: int| 0 <= j < ids@.len() implies (#[trigger] ids@[j])
                < splits@.len() by {
                assert(0 <= as_ints(ids@)[j] < splits@.len());
            }
        }
        put_in_chunk(chunks, key, n, func_bound, data_bound, Ghost(names));
        take_from_splits(splits, &ids, n);
        let count = splits.len();
        proof {
            assert forall|k: int| 0 <= k < splits@.len()
                implies !(#[trigger] splits@[k]).1.included_symbols@.contains(
                n,
            ) by {
                if old(splits)@[k].1.included_symbols@.contains(n) {
                    assert(holds(k));
                    assert(as_ints(ids@).contains(k));
                    let j = choose|j: int| 0 <= j < ids@.len() && as_ints(ids@)[j] == k;
                    assert(ids@[j] == k as usize);
                    assert(ids@.contains(k as usize));
                }
                assert(k < count);
                assert(splits@[k as usize as int] == splits@[k]);
            }
            assert forall|k: int| 0 <= k < splits@.len() implies {
                &&& (#[trigger] splits@[k]).0@ == IdentifierView::Split(names[k])
                &&& splits@[k].1.included_symbols.func_bound() == func_bound as nat
                &&& splits@[k].1.included_symbols.data_bound() == data_bound as nat
            } by {
                assert(old(splits)@[k].0@ == IdentifierView::Split(names[k]));
            }
        }
    } else {
        proof {
            assert forall|k: int|
                0 <= k < splits@.len() && (#[trigger] splits@[k]).1.included_symbols@.contains(
                    n,
                ) implies exactly(reach, names, n, seq![names[k]]) by {
                assert(holds(k));
                assert(as_ints(ids@).contains(k));
                assert(ids@.len() == 1);
                assert(as_ints(ids@)[0] == k);
                assert(x =~= seq![names[k]]);
            }
            if reached(reach, n) {
                let k = choose|k: int| 0 <= k < reach.len() && (#[trigger] reach[k]).contains(n);
                assert(splits@[k].1.included_symbols@.contains(n));
            }
        }
    }
}

/// Moves every node that two or more of `splits` hold into the chunk of
/// these splits, and returns the chunks in ascending order of their keys.
pub(crate) fn assign_chunks(
    splits: &mut Vec<Output>,
    func_bound: usize,
    data_bound: usize,
    Ghost(names): Ghost<Seq<Seq<char>>>,
) -> (chunks: Vec<Output>)
    requires
        splits_ok(names, old(splits)@, func_bound as nat, data_bound as nat),
        ascending(name_less(), names),
    ensures
        splits_ok(names, final(splits)@, func_bound as nat, data_bound as nat),
        chunks_ok(names, chunks@, func_bound as nat, data_bound as nat),
        same_fields(old(splits)@, final(splits)@),
        forall|n: DepNode|
            placed(reach_of(old(splits)@), names, final(splits)@, chunks@, n),
{
    let ghost reach = reach_of(old(splits)@);
    let mut chunks: Vec<Output> = Vec::new();
    let mut i: usize = 0;
    while i < func_bound
        invariant
            i <= func_bound,
            reach == reach_of(old(splits)@),
            ascending(name_less(), names),
            splits_ok(names, splits@, func_bound as nat, data_bound as nat),
            chunks_ok(names, chunks@, func_bound as nat, data_bound as nat),
            same_fields(old(splits)@, splits@),
            forall|m: DepNode|
                NodeSet::in_bounds(m, i as nat, 0) ==> placed(reach, names, splits@, chunks@, m),
            forall|m: DepNode|
                !NodeSet::in_bounds(m, i as nat, 0) ==> untouched(reach, splits@, chunks@, m),
        decreases func_bound - i,
    {
        let n = DepNode::Function(i);
        assert(!NodeSet::in_bounds(n, i as nat, 0));
        let ghost splits_before = splits@;
        let ghost chunks_before = chunks@;
        place_node(splits, &mut chunks, n, func_bound, data_bound, Ghost(reach), Ghost(names));
        proof {
            assert forall|m: DepNode| NodeSet::in_bounds(m, (i + 1) as nat, 0) implies placed(
                reach,
                names,
                splits@,
                chunks@,
                m,
            ) by {
                if m != n {
                    assert(NodeSet::in_bounds(m, i as nat, 0));
                    lemma_placed_kept(
                        reach,
                        names,
                        splits_before,
                        chunks_before,
                        splits@,
                        chunks@,
                        n,
                        m,
                    );
                }
            }
            assert forall|m: DepNode| !NodeSet::in_bounds(m, (i + 1) as nat, 0) implies untouched(
                reach,
                splits@,
                chunks@,
                m,
            ) by {
                assert(!NodeSet::in_bounds(m, i as nat, 0));
                lemma_untouched_kept(reach, splits_before, chunks_before, splits@, chunks@, n, m);
            }
        }
        i += 1;
    }
    let mut j: usize = 0;
    while j < data_bound
        invariant
            j <= data_bound,
            reach == reach_of(old(splits)@),
            ascending(name_less(), names),
            splits_ok(names, splits@, func_bound as nat, data_bound as nat),
            chunks_ok(names, chunks@, func_bound as nat, data_bound as nat),
            same_fields(old(splits)@, splits@),
            forall|m: DepNode|
                NodeSet::in_bounds(m, func_bound as nat, j as nat) ==> placed(
                    reach,
                    names,
                    splits@,
                    chunks@,
                    m,
                ),
            forall|m: DepNode|
                !NodeSet::in_bounds(m, func_bound as nat, j as nat) ==> untouched(
                    reach,
                    splits@,
                    chunks@,
                    m,
                ),
        decreases data_bound - j,
    {
        let n = DepNode::DataSymbol(j);
        assert(!NodeSet::in_bounds(n, func_bound as nat, j as nat));
        let ghost splits_before = splits@;
        let ghost chunks_before = chunks@;
        place_node(splits, &mut chunks, n, func_bound, data_bound, Ghost(reach), Ghost(names));
        proof {
            assert forall|m: DepNode|
                NodeSet::in_bounds(m, func_bound as nat, (j + 1) as nat) implies placed(
                reach,
                names,
                splits@,
                chunks@,
                m,
            ) by {
                if m != n {
                    assert(NodeSet::in_bounds(m, func_bound as nat, j as nat));
                    lemma_placed_kept(
                        reach,
                        names,
                        splits_before,
                        chunks_before,
                        splits@,
                        chunks@,
                        n,
                        m,
                    );
                }
            }
            assert forall|m: DepNode|
                !NodeSet::in_bounds(m, func_bound as nat, (j + 1) as nat) implies untouched(
                reach,
                splits@,
                chunks@,
                m,
            ) by {
                assert(!NodeSet::in_bounds(m, func_bound as nat, j as nat));
                lemma_untouched_kept(reach, splits_before, chunks_before, splits@, chunks@, n, m);
            }
        }
        j += 1;
    }
    proof {
        assert forall|m: DepNode| placed(reach, names, splits@, chunks@, m) by {
            if !NodeSet::in_bounds(m, func_bound as nat, data_bound as nat) {
                assert(untouched(reach, splits@, chunks@, m));
                assert forall|k: int| 0 <= k < splits@.len()
                    implies !(#[trigger] splits@[k]).1.included_symbols@.contains(
                    m,
                ) by {
                    splits@[k].1.included_symbols.lemma_members_spanned();
                }
                if reached(reach, m) {
                    let k = choose|k: int| 0 <= k < reach.len()
                        && (#[trigger] reach[k]).contains(m);
                    assert(splits@[k].1.included_symbols@.contains(m));
                }
            }
        }
    }
    chunks
}

/// What each of `splits` holds.
pub open spec fn reach_of(splits: Seq<Output>) -> Seq<Set<DepNode>> {
    Seq::new(splits.len(), |k: int| splits[k].1.included_symbols@)
}

/// A node that is where it belongs stays so when another node is placed.
proof fn lemma_placed_kept(
    reach: Seq<Set<DepNode>>,
    names: Seq<Seq<char>>,
    splits_before: Seq<Output>,
    chunks_before: Seq<Output>,
    splits: Seq<Output>,
    chunks: Seq<Output>,
    n: DepNode,
    m: DepNode,
)
    requires
        m != n,
        placed(reach, names, splits_before, chunks_before, m),
        same_but(splits_before, splits, n),
        forall|other: Seq<Seq<char>>, m: DepNode|
            m != n ==> #[trigger] in_chunk(chunks, other, m) == in_chunk(chunks_before, other, m),
    ensures
        placed(reach, names, splits, chunks, m),
{
    assert forall|k: int|
        0 <= k < splits.len() && (#[trigger] splits[k]).1.included_symbols@.contains(
            m,
        ) implies exactly(reach, names, m, seq![names[k]]) by {
        assert(splits_before[k].1.included_symbols@.contains(m));
    }
    assert forall|key: Seq<Seq<char>>| #[trigger] in_chunk(chunks, key, m) implies exactly(
        reach,
        names,
        m,
        key,
    ) by {
        assert(in_chunk(chunks_before, key, m));
    }
    if reached(reach, m) {
        if in_split(splits_before, m) {
            let k = choose|k: int|
                0 <= k < splits_before.len()
                    && (#[trigger] splits_before[k]).1.included_symbols@.contains(
                    m,
                );
            assert(splits[k].1.included_symbols@.contains(m));
        } else {
            let key = choose|key: Seq<Seq<char>>| #[trigger] in_chunk(chunks_before, key, m);
            assert(in_chunk(chunks, key, m));
        }
    }
}

/// A node that is where the traversals found it stays so when another
/// node is placed.
proof fn lemma_untouched_kept(
    reach: Seq<Set<DepNode>>,
    splits_before: Seq<Output>,
    chunks_before: Seq<Output>,
    splits: Seq<Output>,
    chunks: Seq<Output>,
    n: DepNode,
    m: DepNode,
)
    requires
        m != n,
        untouched(reach, splits_before, chunks_before, m),
        same_but(splits_before, splits, n),
        forall|other: Seq<Seq<char>>, m: DepNode|
            m != n ==> #[trigger] in_chunk(chunks, other, m) == in_chunk(chunks_before, other, m),
    ensures
        untouched(reach, splits, chunks, m),
{
    assert forall|k: int| 0 <= k < splits.len()
        implies ((#[trigger] splits[k]).1.included_symbols@.contains(
        m,
    ) <==> reach[k].contains(m)) by {
        assert(splits_before[k].1.included_symbols@.contains(m)
            == splits[k].1.included_symbols@.contains(m));
    }
    assert forall|key: Seq<Seq<char>>| !#[trigger] in_chunk(chunks, key, m) by {
        assert(!in_chunk(chunks_before, key, m));
    }
}

/// Whether every node is where it belongs in `splits` and `chunks`.
pub open spec fn all_placed(
    reach: Seq<Set<DepNode>>,
    names: Seq<Seq<char>>,
    splits: Seq<Output>,
    chunks: Seq<Output>,
    func_bound: nat,
    data_bound: nat,
) -> bool {
    &&& reach.len() == names.len()
    &&& ascending(name_less(), names)
    &&& splits_ok(names, splits, func_bound, data_bound)
    &&& chunks_ok(names, chunks, func_bound, data_bound)
    &&& forall|n: DepNode| placed(reach, names, splits, chunks, n)
}

/// A node that exactly the splits of a chunk key reach is reached by two
/// different splits.
proof fn lemma_key_has_two(
    reach: Seq<Set<DepNode>>,
    names: Seq<Seq<char>>,
    key: Seq<Seq<char>>,
    m: DepNode,
) -> (r: (int, int))
    requires
        reach.len() == names.len(),
        is_chunk_key(names, key),
        exactly(reach, names, m, key),
    ensures
        0 <= r.0 < reach.len(),
        0 <= r.1 < reach.len(),
        names[r.0] == key[0],
        names[r.1] == key[1],
        names[r.0] != names[r.1],
        reach[r.0].contains(m),
        reach[r.1].contains(m),
{
    assert(names.contains(key[0]));
    assert(names.contains(key[1]));
    let a = choose|a: int| 0 <= a < names.len() && names[a] == key[0];
    let b = choose|b: int| 0 <= b < names.len() && names[b] == key[1];
    assert(name_less()(key[0], key[1]));
    lemma_str_irreflexive(key[0]);
    assert(key.contains(names[a]));
    assert(key.contains(names[b]));
    assert(reach[a].contains(m));
    assert(reach[b].contains(m));
    (a, b)
}

/// After the chunks are made, a split holds exactly the nodes that it
/// alone reaches.
pub proof fn lemma_split_holds(
    reach: Seq<Set<DepNode>>,
    names: Seq<Seq<char>>,
    splits: Seq<Output>,
    chunks: Seq<Output>,
    func_bound: nat,
    data_bound: nat,
    k: int,
    m: DepNode,
)
    requires
        all_placed(reach, names, splits, chunks, func_bound, data_bound),
        0 <= k < splits.len(),
    ensures
        splits[k].1.included_symbols@.contains(m) <==> exactly(reach, names, m, seq![names[k]]),
{
    lemma_ascending_distinct(names);
    assert(placed(reach, names, splits, chunks, m));
    let only = seq![names[k]];
    if exactly(reach, names, m, only) && !splits[k].1.included_symbols@.contains(m) {
        assert(only[0] == names[k]);
        assert(only.contains(names[k]));
        assert(reach[k].contains(m));
        assert(reached(reach, m));
        if in_split(splits, m) {
            let h = choose|h: int|
                0 <= h < splits.len() && (#[trigger] splits[h]).1.included_symbols@.contains(m);
            assert(exactly(reach, names, m, seq![names[h]]));
            assert(seq![names[h]].contains(names[k]));
            assert(false);
        } else {
            let key = choose|key: Seq<Seq<char>>| #[trigger] in_chunk(chunks, key, m);
            let c = choose|c: int|
                0 <= c < chunks.len() && (#[trigger] chunks[c]).0@ == IdentifierView::Chunk(key)
                    && chunks[c].1.included_symbols@.contains(m);
            assert(chunk_keys(chunks)[c] == key);
            let (a, b) = lemma_key_has_two(reach, names, key, m);
            assert(only.contains(names[a]));
            assert(only.contains(names[b]));
            assert(false);
        }
    }
}

/// After the chunks are made, a chunk holds exactly the nodes that
/// exactly the splits of its key reach.
pub proof fn lemma_chunk_holds(
    reach: Seq<Set<DepNode>>,
    names: Seq<Seq<char>>,
    splits: Seq<Output>,
    chunks: Seq<Output>,
    func_bound: nat,
    data_bound: nat,
    c: int,
    m: DepNode,
)
    requires
        all_placed(reach, names, splits, chunks, func_bound, data_bound),
        0 <= c < chunks.len(),
    ensures
        chunks[c].1.included_symbols@.contains(m) <==> exactly(
            reach,
            names,
            m,
            chunk_keys(chunks)[c],
        ),
{
    lemma_ascending_distinct(names);
    assert(placed(reach, names, splits, chunks, m));
    let key = chunk_keys(chunks)[c];
    assert(chunks[c].0@ is Chunk);
    assert(chunks[c].0@ == IdentifierView::Chunk(key));
    assert(is_chunk_key(names, key));
    if chunks[c].1.included_symbols@.contains(m) {
        assert(in_chunk(chunks, key, m));
    }
    if exactly(reach, names, m, key) && !chunks[c].1.included_symbols@.contains(m) {
        let (a, b) = lemma_key_has_two(reach, names, key, m);
        assert(reached(reach, m));
        if in_split(splits, m) {
            let h = choose|h: int|
                0 <= h < splits.len() && (#[trigger] splits[h]).1.included_symbols@.contains(m);
            assert(exactly(reach, names, m, seq![names[h]]));
            assert(seq![names[h]].contains(names[a]));
            assert(seq![names[h]].contains(names[b]));
            assert(false);
        } else {
            let other = choose|other: Seq<Seq<char>>| #[trigger] in_chunk(chunks, other, m);
            let d = choose|d: int|
                0 <= d < chunks.len() && (#[trigger] chunks[d]).0@ == IdentifierView::Chunk(other)
                    && chunks[d].1.included_symbols@.contains(m);
            assert(chunk_keys(chunks)[d] == other);
            assert(is_chunk_key(names, other));
            assert(exactly(reach, names, m, other));
            assert forall|x: Seq<char>| key.contains(x) <==> other.contains(x) by {
                if key.contains(x) {
                    let j = choose|j: int| 0 <= j < key.len() && key[j] == x;
                    assert(names.contains(key[j]));
                    let g = choose|g: int| 0 <= g < names.len() && names[g] == x;
                    assert(reach[g].contains(m) <==> key.contains(names[g]));
                    assert(reach[g].contains(m) <==> other.contains(names[g]));
                }
                if other.contains(x) {
                    let j = choose|j: int| 0 <= j < other.len() && other[j] == x;
                    assert(names.contains(other[j]));
                    let g = choose|g: int| 0 <= g < names.len() && names[g] == x;
                    assert(reach[g].contains(m) <==> key.contains(names[g]));
                    assert(reach[g].contains(m) <==> other.contains(names[g]));
                }
            }
            lemma_ascending_same_members(key, other);
            lemma_names_irreflexive(key);
            let lt = |a: Seq<Seq<char>>, b: Seq<Seq<char>>| names_less(a, b);
            if c < d {
                assert(lt(chunk_keys(chunks)[c], chunk_keys(chunks)[d]));
            } else if d < c {
                assert(lt(chunk_keys(chunks)[d], chunk_keys(chunks)[c]));
            }
            assert(false);
        }
    }
}

/// After the chunks are made, every node that a split reaches is held by
/// a split or a chunk.
pub proof fn lemma_reached_held(
    reach: Seq<Set<DepNode>>,
    names: Seq<Seq<char>>,
    splits: Seq<Output>,
    chunks: Seq<Output>,
    func_bound: nat,
    data_bound: nat,
    k: int,
    m: DepNode,
)
    requires
        all_placed(reach, names, splits, chunks, func_bound, data_bound),
        0 <= k < reach.len(),
        reach[k].contains(m),
    ensures
        in_split(splits, m) || exists|c: int|
            0 <= c < chunks.len() && (#[trigger] chunks[c]).1.included_symbols@.contains(m),
{
    assert(placed(reach, names, splits, chunks, m));
    assert(reached(reach, m));
    if !in_split(splits, m) {
        let key = choose|key: Seq<Seq<char>>| #[trigger] in_chunk(chunks, key, m);
        let c = choose|c: int|
            0 <= c < chunks.len() && (#[trigger] chunks[c]).0@ == IdentifierView::Chunk(key)
                && chunks[c].1.included_symbols@.contains(m);
        assert(chunks[c].1.included_symbols@.contains(m));
    }
}

} // verus!
