//! Nodes of the dependency graph and dense sets of them.

use vstd::prelude::*;

verus! {

/// Index of a function in the combined imported-then-defined function space.
pub type InputFuncId = usize;

/// Index into the symbol table of the `linking` section.
pub type SymbolIndex = usize;

/// A node of the dependency graph: a function or a data symbol.
#[derive(Debug, PartialEq, Eq, Hash, Copy, PartialOrd, Ord, Clone, Structural)]
pub enum DepNode {
    Function(usize),
    DataSymbol(usize),
}

/// The number of `false` entries of `bits`.
pub open spec fn count_clear(bits: Seq<bool>) -> nat
    decreases bits.len(),
{
    if bits.len() == 0 {
        0
    } else {
        count_clear(bits.drop_last()) + if bits.last() {
            0nat
        } else {
            1nat
        }
    }
}

/// A sequence of clear bits has as many clear bits as it is long.
pub proof fn lemma_count_clear_all(bits: Seq<bool>)
    requires
        forall|i: int| 0 <= i < bits.len() ==> !bits[i],
    ensures
        count_clear(bits) == bits.len(),
    decreases bits.len(),
{
    if bits.len() > 0 {
        lemma_count_clear_all(bits.drop_last());
    }
}

/// Setting a clear bit lowers the number of clear bits by one.
pub proof fn lemma_count_clear_set(bits: Seq<bool>, i: int)
    requires
        0 <= i < bits.len(),
        !bits[i],
    ensures
        count_clear(bits.update(i, true)) + 1 == count_clear(bits),
    decreases bits.len(),
{
    let after = bits.update(i, true);
    if i == bits.len() - 1 {
        assert(after.drop_last() =~= bits.drop_last());
    } else {
        assert(after.drop_last() =~= bits.drop_last().update(i, true));
        lemma_count_clear_set(bits.drop_last(), i);
    }
}

/// A set of dependency nodes over a fixed universe: functions below
/// `func_bound()` and data symbols below `data_bound()`.
///
/// Membership is a bit per node, so that a walk over the set visits the
/// functions in index order and then the data symbols in index order.
pub struct NodeSet {
    funcs: Vec<bool>,
    data: Vec<bool>,
}

impl View for NodeSet {
    type V = Set<DepNode>;

    closed spec fn view(&self) -> Set<DepNode> {
        Set::new(
            |n: DepNode|
                match n {
                    DepNode::Function(i) => i < self.funcs@.len() && self.funcs@[i as int],
                    DepNode::DataSymbol(i) => i < self.data@.len() && self.data@[i as int],
                },
        )
    }
}

impl NodeSet {
    /// The number of functions of the universe.
    pub closed spec fn func_bound(&self) -> nat {
        self.funcs@.len()
    }

    /// The number of data symbols of the universe.
    pub closed spec fn data_bound(&self) -> nat {
        self.data@.len()
    }

    /// Whether `n` lies in a universe of the given size.
    pub open spec fn in_bounds(n: DepNode, func_bound: nat, data_bound: nat) -> bool {
        match n {
            DepNode::Function(i) => i < func_bound,
            DepNode::DataSymbol(i) => i < data_bound,
        }
    }

    /// Whether `n` lies in the universe of this set.
    pub open spec fn spans(&self, n: DepNode) -> bool {
        Self::in_bounds(n, self.func_bound(), self.data_bound())
    }

    /// The number of nodes of the universe that are not in the set.
    pub closed spec fn absent(&self) -> nat {
        count_clear(self.funcs@) + count_clear(self.data@)
    }

    /// Every member lies in the universe.
    pub proof fn lemma_members_spanned(&self)
        ensures
            forall|n: DepNode| #[trigger] self@.contains(n) ==> self.spans(n),
    {
    }

    /// The empty set over a universe of the given size.
    pub fn new(func_bound: usize, data_bound: usize) -> (s: NodeSet)
        ensures
            s@ == Set::<DepNode>::empty(),
            s.func_bound() == func_bound,
            s.data_bound() == data_bound,
            s.absent() == func_bound + data_bound,
    {
        let s = NodeSet { funcs: vec![false; func_bound], data: vec![false; data_bound] };
        proof {
            lemma_count_clear_all(s.funcs@);
            lemma_count_clear_all(s.data@);
        }
        assert(s@ =~= Set::<DepNode>::empty());
        s
    }

    /// The number of functions of the universe.
    pub fn func_count(&self) -> (n: usize)
        ensures
            n == self.func_bound(),
    {
        self.funcs.len()
    }

    /// The number of data symbols of the universe.
    pub fn data_count(&self) -> (n: usize)
        ensures
            n == self.data_bound(),
    {
        self.data.len()
    }

    /// Whether `n` lies in the universe of this set.
    pub fn has_room_for(&self, n: DepNode) -> (r: bool)
        ensures
            r == self.spans(n),
    {
        match n {
            DepNode::Function(i) => i < self.funcs.len(),
            DepNode::DataSymbol(i) => i < self.data.len(),
        }
    }

    /// The functions of the set, in ascending order.
    pub fn functions(&self) -> (r: Vec<InputFuncId>)
        ensures
            crate::seqs::selects(
                crate::seqs::positions(r@),
                self.func_bound() as int,
                |f: int| self@.contains(DepNode::Function(f as usize)),
            ),
    {
        let found = crate::seqs::collect_marked(&self.funcs);
        let count = self.funcs.len();
        proof {
            let keep = |i: int| 0 <= i < self.funcs@.len() && self.funcs@[i];
            let other = |f: int| self@.contains(DepNode::Function(f as usize));
            assert forall|i: int| 0 <= i < count implies keep(i) == #[trigger] other(i) by {
                assert(i as usize == i);
            }
            crate::seqs::lemma_selects_same(
                crate::seqs::positions(found@),
                self.funcs@.len() as int,
                |i: int| 0 <= i < self.funcs@.len() && self.funcs@[i],
                |f: int| self@.contains(DepNode::Function(f as usize)),
            );
        }
        found
    }

    /// The data symbols of the set, in ascending order.
    pub fn data_symbols(&self) -> (r: Vec<SymbolIndex>)
        ensures
            crate::seqs::selects(
                crate::seqs::positions(r@),
                self.data_bound() as int,
                |s: int| self@.contains(DepNode::DataSymbol(s as usize)),
            ),
    {
        let found = crate::seqs::collect_marked(&self.data);
        let count = self.data.len();
        proof {
            let keep = |i: int| 0 <= i < self.data@.len() && self.data@[i];
            let other = |s: int| self@.contains(DepNode::DataSymbol(s as usize));
            assert forall|i: int| 0 <= i < count implies keep(i) == #[trigger] other(i) by {
                assert(i as usize == i);
            }
            crate::seqs::lemma_selects_same(
                crate::seqs::positions(found@),
                self.data@.len() as int,
                |i: int| 0 <= i < self.data@.len() && self.data@[i],
                |s: int| self@.contains(DepNode::DataSymbol(s as usize)),
            );
        }
        found
    }

    /// Whether `n` is in the set. A node outside the universe is not.
    pub fn contains(&self, n: DepNode) -> (r: bool)
        ensures
            r == self@.contains(n),
    {
        match n {
            DepNode::Function(i) => i < self.funcs.len() && self.funcs[i],
            DepNode::DataSymbol(i) => i < self.data.len() && self.data[i],
        }
    }

    /// Adds `n`, which must lie in the universe.
    pub fn insert(&mut self, n: DepNode)
        requires
            old(self).spans(n),
        ensures
            final(self)@ == old(self)@.insert(n),
            final(self).func_bound() == old(self).func_bound(),
            final(self).data_bound() == old(self).data_bound(),
            !old(self)@.contains(n) ==> final(self).absent() + 1 == old(self).absent(),
            old(self)@.contains(n) ==> final(self).absent() == old(self).absent(),
    {
        match n {
            DepNode::Function(i) => {
                proof {
                    if !self.funcs@[i as int] {
                        lemma_count_clear_set(self.funcs@, i as int);
                    } else {
                        assert(self.funcs@.update(i as int, true) =~= self.funcs@);
                    }
                }
                self.funcs.set(i, true);
            },
            DepNode::DataSymbol(i) => {
                proof {
                    if !self.data@[i as int] {
                        lemma_count_clear_set(self.data@, i as int);
                    } else {
                        assert(self.data@.update(i as int, true) =~= self.data@);
                    }
                }
                self.data.set(i, true);
            },
        }
        assert(self@ =~= old(self)@.insert(n));
    }

    /// Takes `n` out of the set; nothing changes where it was not a member.
    pub fn remove(&mut self, n: DepNode)
        ensures
            final(self)@ == old(self)@.remove(n),
            final(self).func_bound() == old(self).func_bound(),
            final(self).data_bound() == old(self).data_bound(),
    {
        match n {
            DepNode::Function(i) => {
                if i < self.funcs.len() {
                    self.funcs.set(i, false);
                }
            },
            DepNode::DataSymbol(i) => {
                if i < self.data.len() {
                    self.data.set(i, false);
                }
            },
        }
        assert(self@ =~= old(self)@.remove(n));
    }
}

/// A partial map from dependency nodes to values, over a fixed universe.
pub struct NodeMap<V> {
    funcs: Vec<Option<V>>,
    data: Vec<Option<V>>,
}

impl<V> View for NodeMap<V> {
    type V = Map<DepNode, V>;

    closed spec fn view(&self) -> Map<DepNode, V> {
        Map::new(
            |n: DepNode|
                match n {
                    DepNode::Function(i) => i < self.funcs@.len() && self.funcs@[i as int] is Some,
                    DepNode::DataSymbol(i) => i < self.data@.len() && self.data@[i as int] is Some,
                },
            |n: DepNode|
                match n {
                    DepNode::Function(i) => self.funcs@[i as int]->0,
                    DepNode::DataSymbol(i) => self.data@[i as int]->0,
                },
        )
    }
}

impl<V: Copy> NodeMap<V> {
    /// The number of functions of the universe.
    pub closed spec fn func_bound(&self) -> nat {
        self.funcs@.len()
    }

    /// The number of data symbols of the universe.
    pub closed spec fn data_bound(&self) -> nat {
        self.data@.len()
    }

    /// Whether `n` lies in the universe of this map.
    pub open spec fn spans(&self, n: DepNode) -> bool {
        NodeSet::in_bounds(n, self.func_bound(), self.data_bound())
    }

    /// Every key lies in the universe.
    pub proof fn lemma_keys_spanned(&self)
        ensures
            forall|n: DepNode| #[trigger] self@.dom().contains(n) ==> self.spans(n),
    {
    }

    /// The empty map over a universe of the given size.
    pub fn new(func_bound: usize, data_bound: usize) -> (m: NodeMap<V>)
        ensures
            m@ == Map::<DepNode, V>::empty(),
            m.func_bound() == func_bound,
            m.data_bound() == data_bound,
    {
        let mut funcs: Vec<Option<V>> = Vec::new();
        let mut i: usize = 0;
        while i < func_bound
            invariant
                i <= func_bound,
                funcs@.len() == i,
                forall|j: int| 0 <= j < i ==> funcs@[j] is None,
            decreases func_bound - i,
        {
            funcs.push(None);
            i += 1;
        }
        let mut data: Vec<Option<V>> = Vec::new();
        let mut k: usize = 0;
        while k < data_bound
            invariant
                k <= data_bound,
                data@.len() == k,
                forall|j: int| 0 <= j < k ==> data@[j] is None,
            decreases data_bound - k,
        {
            data.push(None);
            k += 1;
        }
        let m = NodeMap { funcs, data };
        assert(m@ =~= Map::<DepNode, V>::empty());
        m
    }

    /// The number of functions of the universe.
    pub fn func_count(&self) -> (n: usize)
        ensures
            n == self.func_bound(),
    {
        self.funcs.len()
    }

    /// The number of data symbols of the universe.
    pub fn data_count(&self) -> (n: usize)
        ensures
            n == self.data_bound(),
    {
        self.data.len()
    }

    /// The value stored for `n`, if any.
    pub fn get(&self, n: DepNode) -> (r: Option<V>)
        ensures
            r is Some <==> self@.dom().contains(n),
            r matches Some(v) ==> self@[n] == v,
    {
        match n {
            DepNode::Function(i) => if i < self.funcs.len() {
                self.funcs[i]
            } else {
                None
            },
            DepNode::DataSymbol(i) => if i < self.data.len() {
                self.data[i]
            } else {
                None
            },
        }
    }

    /// Stores `v` for `n`, which must lie in the universe.
    pub fn insert(&mut self, n: DepNode, v: V)
        requires
            old(self).spans(n),
        ensures
            final(self)@ == old(self)@.insert(n, v),
            final(self).func_bound() == old(self).func_bound(),
            final(self).data_bound() == old(self).data_bound(),
    {
        match n {
            DepNode::Function(i) => {
                self.funcs.set(i, Some(v));
            },
            DepNode::DataSymbol(i) => {
                self.data.set(i, Some(v));
            },
        }
        assert(self@ =~= old(self)@.insert(n, v));
    }
}

} // verus!
