//! Small facts about sequences that the other modules share.

use vstd::prelude::*;

verus! {

/// A value is in `s.push(x)` exactly if it is in `s` or is `x`.
pub proof fn lemma_push_contains<A>(s: Seq<A>, x: A, y: A)
    ensures
        s.push(x).contains(y) <==> s.contains(y) || y == x,
{
    let t = s.push(x);
    if s.contains(y) {
        let j = choose|j: int| 0 <= j < s.len() && s[j] == y;
        assert(t[j] == y);
    }
    if y == x {
        assert(t[s.len() as int] == y);
    }
    if t.contains(y) {
        let j = choose|j: int| 0 <= j < t.len() && t[j] == y;
        if j < s.len() {
            assert(s[j] == y);
        }
    }
}

/// Pushing a value that is not yet there keeps a sequence free of duplicates.
pub proof fn lemma_push_no_duplicates<A>(s: Seq<A>, x: A)
    requires
        s.no_duplicates(),
        !s.contains(x),
    ensures
        s.push(x).no_duplicates(),
{
    let t = s.push(x);
    assert forall|i: int, j: int| 0 <= i < t.len() && 0 <= j < t.len() && i != j implies t[i]
        != t[j] by {
        if i < s.len() && j < s.len() {
        } else if i < s.len() {
            assert(s.contains(s[i]));
        } else {
            assert(s.contains(s[j]));
        }
    }
}

/// Whether `ids` lists, in ascending order, exactly the numbers below `n`
/// that `keep` holds of.
pub open spec fn selects(ids: Seq<int>, n: int, keep: spec_fn(int) -> bool) -> bool {
    &&& forall|k: int| 0 <= k < ids.len() ==> 0 <= #[trigger] ids[k] < n && keep(ids[k])
    &&& forall|k1: int, k2: int| 0 <= k1 < k2 < ids.len()
        ==> #[trigger] ids[k1] < #[trigger] ids[k2]
    &&& forall|i: int| 0 <= i < n && #[trigger] keep(i) ==> ids.contains(i)
}

/// A selection below `n` becomes one below `n + 1` when `n` is pushed if
/// `keep` holds of it, and left out if not.
pub proof fn lemma_selects_next(ids: Seq<int>, n: int, keep: spec_fn(int) -> bool)
    requires
        selects(ids, n, keep),
        0 <= n,
    ensures
        keep(n) ==> selects(ids.push(n), n + 1, keep),
        !keep(n) ==> selects(ids, n + 1, keep),
{
    if keep(n) {
        let t = ids.push(n);
        assert forall|i: int| 0 <= i < n + 1 && #[trigger] keep(i) implies t.contains(i) by {
            lemma_push_contains(ids, n, i);
        }
    }
}

/// There is one selection only.
pub proof fn lemma_selects_unique(a: Seq<int>, b: Seq<int>, n: int, keep: spec_fn(int) -> bool)
    requires
        selects(a, n, keep),
        selects(b, n, keep),
    ensures
        a == b,
    decreases n,
{
    if n <= 0 {
        if a.len() > 0 {
            assert(0 <= a[0] < n);
        }
        if b.len() > 0 {
            assert(0 <= b[0] < n);
        }
        assert(a =~= b);
    } else {
        let m = n - 1;
        if keep(m) {
            lemma_selects_last(a, n, keep);
            lemma_selects_last(b, n, keep);
            lemma_selects_unique(a.drop_last(), b.drop_last(), m, keep);
            assert(a =~= a.drop_last().push(m));
            assert(b =~= b.drop_last().push(m));
        } else {
            lemma_selects_shrink(a, n, keep);
            lemma_selects_shrink(b, n, keep);
            lemma_selects_unique(a, b, m, keep);
        }
    }
}

/// A selection below `n` whose last candidate is kept ends with it, and the
/// rest is a selection below `n - 1`.
proof fn lemma_selects_last(a: Seq<int>, n: int, keep: spec_fn(int) -> bool)
    requires
        selects(a, n, keep),
        n > 0,
        keep(n - 1),
    ensures
        a.len() > 0,
        a.last() == n - 1,
        selects(a.drop_last(), n - 1, keep),
{
    let m = n - 1;
    assert(a.contains(m));
    let j = choose|j: int| 0 <= j < a.len() && a[j] == m;
    if j < a.len() - 1 {
        assert(a[j] < a[a.len() - 1]);
        assert(a[a.len() - 1] < n);
    }
    let d = a.drop_last();
    assert forall|k: int| 0 <= k < d.len() implies 0 <= #[trigger] d[k] < m && keep(d[k]) by {
        assert(d[k] == a[k]);
        assert(a[k] < a[a.len() - 1]);
    }
    assert forall|i: int| 0 <= i < m && #[trigger] keep(i) implies d.contains(i) by {
        assert(a.contains(i));
        let k = choose|k: int| 0 <= k < a.len() && a[k] == i;
        assert(d[k] == i);
    }
}

/// A selection below `n` whose last candidate is not kept is a selection
/// below `n - 1`.
proof fn lemma_selects_shrink(a: Seq<int>, n: int, keep: spec_fn(int) -> bool)
    requires
        selects(a, n, keep),
        n > 0,
        !keep(n - 1),
    ensures
        selects(a, n - 1, keep),
{
    assert forall|k: int| 0 <= k < a.len() implies 0 <= #[trigger] a[k] < n - 1 && keep(a[k]) by {
        assert(0 <= a[k] < n && keep(a[k]));
    }
}

/// A selection below `n` is one below `m` where `keep` holds of nothing
/// from `n` up to `m`.
pub proof fn lemma_selects_widen(ids: Seq<int>, n: int, m: int, keep: spec_fn(int) -> bool)
    requires
        selects(ids, n, keep),
        n <= m,
        forall|i: int| n <= i < m ==> !#[trigger] keep(i),
    ensures
        selects(ids, m, keep),
{
    assert forall|k: int| 0 <= k < ids.len() implies 0 <= #[trigger] ids[k] < m && keep(ids[k]) by {
        assert(0 <= ids[k] < n);
    }
}

/// Where the gap before entry `k` of a selection starts: after the entry
/// before it.
pub open spec fn gap_start(ids: Seq<int>, k: int) -> int {
    if k <= 0 {
        0
    } else {
        ids[k - 1] + 1
    }
}

/// Where the gap before entry `k` of a selection below `n` ends: at the
/// entry, or at `n` after the last one.
pub open spec fn gap_end(ids: Seq<int>, n: int, k: int) -> int {
    if k < ids.len() {
        ids[k]
    } else {
        n
    }
}

/// `keep` holds of nothing between two neighbours of a selection.
pub proof fn lemma_selects_gap(ids: Seq<int>, n: int, keep: spec_fn(int) -> bool, k: int, i: int)
    requires
        selects(ids, n, keep),
        0 <= k <= ids.len(),
        gap_start(ids, k) <= i < gap_end(ids, n, k),
    ensures
        !keep(i),
{
    if keep(i) {
        if k < ids.len() {
            assert(ids[k] < n);
        }
        if k > 0 {
            assert(0 <= ids[k - 1]);
        }
        assert(ids.contains(i));
        let p = choose|p: int| 0 <= p < ids.len() && ids[p] == i;
        if p < k {
            if p < k - 1 {
                assert(ids[p] < ids[k - 1]);
            }
        } else if p > k {
            assert(ids[k] < ids[p]);
        }
    }
}

/// A selection by `keep` is one by any condition that agrees with `keep`
/// below `n`.
pub proof fn lemma_selects_same(
    ids: Seq<int>,
    n: int,
    keep: spec_fn(int) -> bool,
    other: spec_fn(int) -> bool,
)
    requires
        selects(ids, n, keep),
        forall|i: int| 0 <= i < n ==> keep(i) == #[trigger] other(i),
    ensures
        selects(ids, n, other),
{
    assert forall|k: int| 0 <= k < ids.len()
        implies 0 <= #[trigger] ids[k] < n && other(ids[k]) by {
        assert(keep(ids[k]));
    }
    assert forall|i: int| 0 <= i < n && #[trigger] other(i) implies ids.contains(i) by {
        assert(keep(i));
    }
}

/// The numbers of a list of positions.
pub open spec fn positions(v: Seq<usize>) -> Seq<int> {
    Seq::new(v.len(), |i: int| v[i] as int)
}

/// The positions of the marks that are set, in ascending order.
pub fn collect_marked(marks: &Vec<bool>) -> (r: Vec<usize>)
    ensures
        selects(positions(r@), marks@.len() as int, |i: int| 0 <= i < marks@.len() && marks@[i]),
{
    let ghost keep = |i: int| 0 <= i < marks@.len() && marks@[i];
    let mut out: Vec<usize> = Vec::new();
    let mut i: usize = 0;
    while i < marks.len()
        invariant
            i <= marks@.len(),
            keep == |i: int| 0 <= i < marks@.len() && marks@[i],
            selects(positions(out@), i as int, keep),
        decreases marks@.len() - i,
    {
        proof {
            lemma_selects_next(positions(out@), i as int, keep);
        }
        if marks[i] {
            let ghost before = positions(out@);
            out.push(i);
            assert(positions(out@) =~= before.push(i as int));
        }
        i += 1;
    }
    out
}

} // verus!
