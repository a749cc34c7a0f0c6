//! Tables of byte ranges in ascending order, and the search for the range
//! that contains a given one.

use crate::read::ByteRange;
use vstd::prelude::*;
use vstd::relations::{sorted_by, total_ordering};

verus! {

/// A byte range and what it is the range of: a function, a data segment
/// or a data symbol, by its index.
#[derive(Debug, Clone, Copy, PartialEq, Eq, Structural)]
pub struct RangeEntry {
    pub id: usize,
    pub range: ByteRange,
}

/// Whether `a` stands before `b` or is `b`: by start, then by end, then by
/// index.
pub open spec fn entry_le(a: RangeEntry, b: RangeEntry) -> bool {
    ||| a.range.start < b.range.start
    ||| a.range.start == b.range.start && a.range.end < b.range.end
    ||| a.range.start == b.range.start && a.range.end == b.range.end && a.id <= b.id
}

/// The order of the entries of a table.
pub open spec fn entry_order() -> spec_fn(RangeEntry, RangeEntry) -> bool {
    |a: RangeEntry, b: RangeEntry| entry_le(a, b)
}

/// The order of the entries is a total order.
pub proof fn lemma_entry_order()
    ensures
        total_ordering(entry_order()),
{
    let le = entry_order();
    assert forall|x: RangeEntry, y: RangeEntry| #[trigger] le(x, y) && #[trigger] le(y, x) implies x
        == y by {}
    assert forall|x: RangeEntry, y: RangeEntry, z: RangeEntry| #[trigger]
        le(x, y) && #[trigger] le(y, z) implies le(x, z) by {}
    assert forall|x: RangeEntry, y: RangeEntry| #[trigger] le(x, y) || #[trigger] le(y, x) by {}
    assert forall|x: RangeEntry| #[trigger] le(x, x) by {}
}

/// Whether `a` stands before `b` or is `b`.
pub fn entry_before(a: &RangeEntry, b: &RangeEntry) -> (r: bool)
    ensures
        r == entry_le(*a, *b),
{
    if a.range.start != b.range.start {
        a.range.start < b.range.start
    } else if a.range.end != b.range.end {
        a.range.end < b.range.end
    } else {
        a.id <= b.id
    }
}

/// The entries in ascending order.
pub fn sort_entries(entries: &Vec<RangeEntry>) -> (r: Vec<RangeEntry>)
    ensures
        sorted_by(r@, entry_order()),
        r@.to_multiset() == entries@.to_multiset(),
{
    let mut out: Vec<RangeEntry> = Vec::new();
    let mut i: usize = 0;
    assert(entries@.take(0) =~= Seq::<RangeEntry>::empty());
    while i < entries.len()
        invariant
            i <= entries@.len(),
            out@.len() == i,
            sorted_by(out@, entry_order()),
            out@.to_multiset() == entries@.take(i as int).to_multiset(),
        decreases entries@.len() - i,
    {
        let x = entries[i];
        let mut pos: usize = out.len();
        while pos > 0 && !entry_before(&out[pos - 1], &x)
            invariant
                pos <= out@.len(),
                sorted_by(out@, entry_order()),
                forall|j: int| pos <= j < out@.len() ==> entry_le(x, #[trigger] out@[j]),
            decreases pos,
        {
            pos -= 1;
        }
        proof {
            let le = entry_order();
            let before = out@;
            let after = before.insert(pos as int, x);
            assert forall|a: int, b: int| 0 <= a < b < after.len() implies #[trigger] le(
                after[a],
                after[b],
            ) by {
                if b < pos {
                    assert(le(before[a], before[b]));
                } else if b == pos {
                    assert(le(before[a], before[pos - 1]));
                    assert(entry_le(before[pos - 1], x));
                } else if a < pos {
                    assert(le(before[a], before[b - 1]));
                } else if a == pos {
                    assert(entry_le(x, before[b - 1]));
                } else {
                    assert(le(before[a - 1], before[b - 1]));
                }
            }
            vstd::seq_lib::to_multiset_insert(before, pos as int, x);
            assert(entries@.take(i + 1) =~= entries@.take(i as int).push(x));
            vstd::seq_lib::to_multiset_build(entries@.take(i as int), x);
        }
        out.insert(pos, x);
        i += 1;
    }
    assert(entries@.take(entries@.len() as int) =~= entries@);
    out
}

/// Whether the ends of the ranges never descend.
pub open spec fn ends_ascend(entries: Seq<RangeEntry>) -> bool {
    forall|i: int, j: int|
        0 <= i < j < entries.len() ==> (#[trigger] entries[i]).range.end
            <= (#[trigger] entries[j]).range.end
}

/// Whether entry `i` covers `range`.
pub open spec fn covers_at(entries: Seq<RangeEntry>, range: ByteRange, i: int) -> bool {
    0 <= i < entries.len() && entries[i].range.covers(range)
}

/// Whether entry `i` is the first to cover `range`.
pub open spec fn first_covering(entries: Seq<RangeEntry>, range: ByteRange, i: int) -> bool {
    &&& covers_at(entries, range, i)
    &&& forall|j: int| 0 <= j < i ==> !covers_at(entries, range, j)
}

/// Whether entry `i` is the last to cover `range`.
pub open spec fn last_covering(entries: Seq<RangeEntry>, range: ByteRange, i: int) -> bool {
    &&& covers_at(entries, range, i)
    &&& forall|j: int| i < j < entries.len() ==> !covers_at(entries, range, j)
}

/// Whether no entry covers `range`.
pub open spec fn none_covering(entries: Seq<RangeEntry>, range: ByteRange) -> bool {
    forall|j: int| !covers_at(entries, range, j)
}

/// Byte ranges in ascending order. Where their ends ascend too, the first
/// range that contains a given one is found by bisection; else the last
/// one is found by bisection on the starts and a walk back from there.
pub struct RangeTable {
    entries: Vec<RangeEntry>,
}

impl View for RangeTable {
    type V = Seq<RangeEntry>;

    closed spec fn view(&self) -> Seq<RangeEntry> {
        self.entries@
    }
}

impl RangeTable {
    /// The entries ascend.
    pub open spec fn is_sorted(&self) -> bool {
        sorted_by(self@, entry_order())
    }

    /// The entries ascend, and so do their ends.
    pub open spec fn wf(&self) -> bool {
        self.is_sorted() && ends_ascend(self@)
    }

    /// The table of `entries`, whose ranges may lie within one another.
    pub fn sorted(entries: &Vec<RangeEntry>) -> (table: RangeTable)
        ensures
            table.is_sorted(),
            table@.to_multiset() == entries@.to_multiset(),
    {
        RangeTable { entries: sort_entries(entries) }
    }

    /// The table of `entries`, if the ends of their ranges ascend once
    /// the entries stand in ascending order: that is, if no range reaches
    /// beyond the end of a later one.
    pub fn build(entries: &Vec<RangeEntry>) -> (r: Option<RangeTable>)
        ensures
            match r {
                Some(table) => table.wf() && table@.to_multiset() == entries@.to_multiset(),
                None => forall|s: Seq<RangeEntry>|
                    sorted_by(s, entry_order()) && #[trigger] s.to_multiset()
                        == entries@.to_multiset() ==> !ends_ascend(s),
            },
    {
        let sorted = sort_entries(entries);
        let mut i: usize = 1;
        while i < sorted.len()
            invariant
                1 <= i,
                sorted_by(sorted@, entry_order()),
                sorted@.to_multiset() == entries@.to_multiset(),
                forall|a: int, b: int|
                    0 <= a < b < i && b < sorted@.len() ==> (#[trigger] sorted@[a]).range.end
                        <= (#[trigger] sorted@[b]).range.end,
            decreases sorted@.len() - i,
        {
            if sorted[i - 1].range.end > sorted[i].range.end {
                proof {
                    lemma_entry_order();
                    assert forall|s: Seq<RangeEntry>|
                        sorted_by(s, entry_order()) && #[trigger] s.to_multiset()
                            == entries@.to_multiset() implies !ends_ascend(s) by {
                        vstd::seq_lib::lemma_sorted_unique(s, sorted@, entry_order());
                        assert(s[i - 1].range.end > s[i as int].range.end);
                    }
                }
                return None;
            }
            proof {
                assert forall|a: int, b: int|
                    0 <= a < b < i + 1 && b < sorted@.len()
                        implies (#[trigger] sorted@[a]).range.end
                    <= (#[trigger] sorted@[b]).range.end by {
                    if b == i && a < i - 1 {
                        assert(sorted@[a].range.end <= sorted@[i - 1].range.end);
                    }
                }
            }
            i += 1;
        }
        Some(RangeTable { entries: sorted })
    }

    /// The number of entries.
    pub fn len(&self) -> (n: usize)
        ensures
            n == self@.len(),
    {
        self.entries.len()
    }

    /// Entry `i`.
    pub fn get(&self, i: usize) -> (e: RangeEntry)
        requires
            i < self@.len(),
        ensures
            e == self@[i as int],
    {
        self.entries[i]
    }

    /// The position of the first entry whose range contains `range`.
    pub fn find_containing(&self, range: &ByteRange) -> (r: Option<usize>)
        requires
            self.wf(),
        ensures
            match r {
                Some(i) => first_covering(self@, *range, i as int),
                None => none_covering(self@, *range),
            },
    {
        let ghost le = entry_order();
        let mut lo: usize = 0;
        let mut hi: usize = self.entries.len();
        while lo < hi
            invariant
                lo <= hi <= self@.len(),
                self.wf(),
                forall|j: int| 0 <= j < lo ==> (#[trigger] self@[j]).range.end < range.end,
                forall|j: int| hi <= j < self@.len()
                    ==> (#[trigger] self@[j]).range.end >= range.end,
            decreases hi - lo,
        {
            let mid = lo + (hi - lo) / 2;
            if self.entries[mid].range.end < range.end {
                assert forall|j: int| 0 <= j < mid + 1 implies (#[trigger] self@[j]).range.end
                    < range.end by {
                    if j < mid {
                        assert(self@[j].range.end <= self@[mid as int].range.end);
                    }
                }
                lo = mid + 1;
            } else {
                assert forall|j: int| mid <= j < self@.len() implies (#[trigger] self@[j]).range.end
                    >= range.end by {
                    if j > mid {
                        assert(self@[mid as int].range.end <= self@[j].range.end);
                    }
                }
                hi = mid;
            }
        }
        if lo < self.entries.len() && self.entries[lo].range.start <= range.start {
            Some(lo)
        } else {
            proof {
                assert forall|j: int| !covers_at(self@, *range, j) by {
                    if lo <= j < self@.len() {
                        if j > lo {
                            assert(le(self@[lo as int], self@[j]));
                        }
                    }
                }
            }
            None
        }
    }

    /// The position of the last entry whose range contains `range`: of
    /// the entries that contain it, the one that starts last, and ends
    /// last among those.
    pub fn find_last_containing(&self, range: &ByteRange) -> (r: Option<usize>)
        requires
            self.is_sorted(),
        ensures
            match r {
                Some(i) => last_covering(self@, *range, i as int),
                None => none_covering(self@, *range),
            },
    {
        let ghost le = entry_order();
        let mut lo: usize = 0;
        let mut hi: usize = self.entries.len();
        while lo < hi
            invariant
                lo <= hi <= self@.len(),
                self.is_sorted(),
                forall|j: int| 0 <= j < lo ==> (#[trigger] self@[j]).range.start <= range.start,
                forall|j: int|
                    hi <= j < self@.len() ==> (#[trigger] self@[j]).range.start > range.start,
            decreases hi - lo,
        {
            let mid = lo + (hi - lo) / 2;
            if self.entries[mid].range.start <= range.start {
                assert forall|j: int| 0 <= j < mid + 1 implies (#[trigger] self@[j]).range.start
                    <= range.start by {
                    if j < mid {
                        assert(entry_order()(self@[j], self@[mid as int]));
                    }
                }
                lo = mid + 1;
            } else {
                assert forall|j: int| mid <= j < self@.len() implies (
                #[trigger] self@[j]).range.start > range.start by {
                    if j > mid {
                        assert(entry_order()(self@[mid as int], self@[j]));
                    }
                }
                hi = mid;
            }
        }
        let mut at: usize = lo;
        while at > 0
            invariant
                at <= lo <= self@.len(),
                forall|j: int| lo <= j < self@.len() ==> (#[trigger] self@[j]).range.start
                    > range.start,
                forall|j: int| at <= j < self@.len() ==> !covers_at(self@, *range, j),
            decreases at,
        {
            if self.entries[at - 1].range.contains_range(range) {
                return Some(at - 1);
            }
            at -= 1;
        }
        None
    }
}

} // verus!
