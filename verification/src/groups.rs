//! The split points grouped by the name of their split module.

use crate::layout::as_ints;
use crate::order::{
    ascending, lemma_name_order, lemma_str_irreflexive, lemma_str_total, lemma_str_transitive,
    name_less, str_less, str_lt,
};
use crate::seqs::{lemma_selects_next, selects};
use crate::split_point::{point_views, SplitPoint, SplitPointView};
use vstd::prelude::*;

verus! {

/// The split points of one split module: their positions in the list of
/// split points, in ascending order.
#[derive(Debug, PartialEq, Eq, Clone)]
pub struct SplitGroup {
    pub module_name: String,
    pub members: Vec<usize>,
}

/// The names of a list of groups.
pub open spec fn group_names(groups: Seq<SplitGroup>) -> Seq<Seq<char>> {
    Seq::new(groups.len(), |g: int| groups[g].module_name@)
}

/// Whether split point `k` names the split module `name`.
pub open spec fn names_module(points: Seq<SplitPointView>, name: Seq<char>) -> spec_fn(
    int,
) -> bool {
    |k: int| 0 <= k < points.len() && points[k].module_name == name
}

/// Whether `groups` groups the first `upto` split points by the name of
/// their split module: one group for each name, the groups in ascending
/// order of their names, and in each group the positions of its split
/// points in ascending order.
pub open spec fn groups_of(
    points: Seq<SplitPointView>,
    upto: int,
    groups: Seq<SplitGroup>,
) -> bool {
    &&& ascending(name_less(), group_names(groups))
    &&& forall|g: int|
        0 <= g < groups.len() ==> (#[trigger] groups[g]).members@.len() > 0 && selects(
            as_ints(groups[g].members@),
            upto,
            names_module(points, groups[g].module_name@),
        )
    &&& forall|k: int|
        0 <= k < upto && k < points.len() ==> group_names(groups).contains(
            (#[trigger] points[k]).module_name,
        )
}

/// Groups the split points by the name of their split module.
pub fn get_split_points_by_module(split_points: &Vec<SplitPoint>) -> (groups: Vec<SplitGroup>)
    ensures
        groups_of(point_views(split_points@), split_points@.len() as int, groups@),
{
    let ghost points = point_views(split_points@);
    let mut groups: Vec<SplitGroup> = Vec::new();
    let mut k: usize = 0;
    proof {
        lemma_name_order();
    }
    while k < split_points.len()
        invariant
            k <= split_points@.len(),
            points == point_views(split_points@),
            groups_of(points, k as int, groups@),
        decreases split_points@.len() - k,
    {
        let name = &split_points[k].module_name;
        let ghost x = name@;
        let ghost old_groups = groups@;
        let ghost names = group_names(old_groups);
        assert(points[k as int].module_name == x);
        let mut p: usize = 0;
        while p < groups.len() && str_lt(groups[p].module_name.as_str(), name.as_str())
            invariant
                p <= groups@.len(),
                groups@ == old_groups,
                names == group_names(old_groups),
                x == name@,
                forall|j: int| 0 <= j < p ==> str_less(#[trigger] names[j], x),
            decreases groups@.len() - p,
        {
            assert(names[p as int] == groups@[p as int].module_name@);
            p += 1;
        }
        proof {
            lemma_name_order();
            if p < groups@.len() {
                assert(names[p as int] == groups@[p as int].module_name@);
                assert(!str_less(names[p as int], x));
            }
            // No group before `p` has the name, and none after it.
            assert forall|j: int| 0 <= j < names.len() && j != p implies names[j] != x by {
                if j < p {
                    lemma_str_irreflexive(x);
                } else {
                    assert(name_less()(names[p as int], names[j]));
                    if names[j] == x {
                        lemma_str_total(names[p as int], x);
                        lemma_str_transitive(x, names[p as int], x);
                        lemma_str_irreflexive(x);
                    }
                }
            }
        }
        if p < groups.len() && groups[p].module_name == *name {
            let ghost ids = as_ints(groups@[p as int].members@);
            groups[p].members.push(k);
            proof {
                assert(group_names(groups@) =~= names);
                assert forall|g: int| 0 <= g < groups@.len()
                    implies (#[trigger] groups@[g]).members@.len()
                    > 0 && selects(
                    as_ints(groups@[g].members@),
                    k + 1,
                    names_module(points, groups@[g].module_name@),
                ) by {
                    let pred = names_module(points, old_groups[g].module_name@);
                    lemma_selects_next(as_ints(old_groups[g].members@), k as int, pred);
                    if g == p {
                        assert(pred(k as int));
                        assert(as_ints(groups@[g].members@) =~= ids.push(k as int));
                    } else {
                        assert(names[g] != x);
                        assert(!pred(k as int));
                        assert(groups@[g] == old_groups[g]);
                    }
                }
                assert forall|j: int| 0 <= j < k + 1 && j < points.len() implies group_names(
                    groups@,
                ).contains((#[trigger] points[j]).module_name) by {
                    if j == k {
                        assert(names[p as int] == x);
                    }
                }
            }
        } else {
            let mut members: Vec<usize> = Vec::new();
            members.push(k);
            let group = SplitGroup { module_name: name.clone(), members };
            groups.insert(p, group);
            proof {
                let new_names = group_names(groups@);
                assert(new_names =~= names.insert(p as int, x));
                if p < names.len() {
                    assert(names[p as int] != x);
                    lemma_str_total(names[p as int], x);
                    assert(str_less(x, names[p as int]));
                }
                assert forall|i: int, j: int| 0 <= i < j < new_names.len() implies name_less()(
                    #[trigger] new_names[i],
                    #[trigger] new_names[j],
                ) by {
                    if j < p {
                        assert(name_less()(names[i], names[j]));
                    } else if j == p {
                        assert(str_less(names[i], x));
                    } else if i < p {
                        assert(name_less()(names[i], names[j - 1]));
                    } else if i == p {
                        if j - 1 > p {
                            assert(name_less()(names[p as int], names[j - 1]));
                            lemma_str_transitive(x, names[p as int], names[j - 1]);
                        }
                    } else {
                        assert(name_less()(names[i - 1], names[j - 1]));
                    }
                }
                // No earlier split point has the name.
                assert forall|j: int| 0 <= j < k
                    implies !(#[trigger] names_module(points, x)(j)) by {
                    assert(names.contains(points[j].module_name));
                }
                assert forall|g: int| 0 <= g < groups@.len()
                    implies (#[trigger] groups@[g]).members@.len()
                    > 0 && selects(
                    as_ints(groups@[g].members@),
                    k + 1,
                    names_module(points, groups@[g].module_name@),
                ) by {
                    if g == p {
                        let pred = names_module(points, x);
                        assert(as_ints(groups@[g].members@) =~= Seq::<int>::empty().push(k as int));
                        assert(selects(Seq::<int>::empty(), k as int, pred));
                        lemma_selects_next(Seq::<int>::empty(), k as int, pred);
                    } else {
                        let h = if g < p {
                            g
                        } else {
                            g - 1
                        };
                        assert(groups@[g] == old_groups[h]);
                        let pred = names_module(points, old_groups[h].module_name@);
                        lemma_selects_next(as_ints(old_groups[h].members@), k as int, pred);
                        assert(names[h] != x);
                        assert(!pred(k as int));
                    }
                }
                assert forall|j: int| 0 <= j < k + 1 && j < points.len() implies group_names(
                    groups@,
                ).contains((#[trigger] points[j]).module_name) by {
                    if j == k {
                        assert(new_names[p as int] == x);
                    } else {
                        let h = choose|h: int|
                            0 <= h < names.len() && names[h] == points[j].module_name;
                        if h < p {
                            assert(new_names[h] == names[h]);
                        } else {
                            assert(new_names[h + 1] == names[h]);
                        }
                    }
                }
            }
        }
        k += 1;
    }
    groups
}

/// The name of each group is the name of a split module.
pub proof fn lemma_group_named(points: Seq<SplitPointView>, groups: Seq<SplitGroup>, g: int)
    requires
        groups_of(points, points.len() as int, groups),
        0 <= g < groups.len(),
    ensures
        exists|k: int|
            0 <= k < points.len() && (#[trigger] points[k]).module_name == group_names(groups)[g],
{
    let ids = as_ints(groups[g].members@);
    let pred = names_module(points, groups[g].module_name@);
    assert(0 <= ids[0] < points.len() && pred(ids[0]));
    assert(points[ids[0]].module_name == group_names(groups)[g]);
}

} // verus!
