//! Lexicographic order on sequences, on strings and on lists of names.

use vstd::prelude::*;
use vstd::std_specs::iter::IteratorSpec;

verus! {

/// Whether `lt` is a strict total order.
pub open spec fn strict_total<T>(lt: spec_fn(T, T) -> bool) -> bool {
    &&& forall|x: T| !#[trigger] lt(x, x)
    &&& forall|x: T, y: T, z: T| #[trigger] lt(x, y) && #[trigger] lt(y, z) ==> lt(x, z)
    &&& forall|x: T, y: T| x != y ==> #[trigger] lt(x, y) || lt(y, x)
}

/// Whether `a` and `b` agree before position `k` and `a` is smaller there:
/// `a` ends at `k` and `b` goes on, or the item of `a` at `k` is the smaller.
pub open spec fn lex_less_at<T>(lt: spec_fn(T, T) -> bool, a: Seq<T>, b: Seq<T>, k: int) -> bool {
    &&& 0 <= k <= a.len()
    &&& k <= b.len()
    &&& forall|i: int| 0 <= i < k ==> a[i] == b[i]
    &&& (k == a.len() && k < b.len()) || (k < a.len() && k < b.len() && lt(a[k], b[k]))
}

/// Whether `a` comes before `b` in the lexicographic order over `lt`.
pub open spec fn lex_less<T>(lt: spec_fn(T, T) -> bool, a: Seq<T>, b: Seq<T>) -> bool {
    exists|k: int| lex_less_at(lt, a, b, k)
}

/// No sequence comes before itself.
pub proof fn lemma_lex_irreflexive<T>(lt: spec_fn(T, T) -> bool, a: Seq<T>)
    requires
        strict_total(lt),
    ensures
        !lex_less(lt, a, a),
{
}

/// The lexicographic order is transitive.
pub proof fn lemma_lex_transitive<T>(lt: spec_fn(T, T) -> bool, a: Seq<T>, b: Seq<T>, c: Seq<T>)
    requires
        strict_total(lt),
        lex_less(lt, a, b),
        lex_less(lt, b, c),
    ensures
        lex_less(lt, a, c),
{
    let k1 = choose|k: int| lex_less_at(lt, a, b, k);
    let k2 = choose|k: int| lex_less_at(lt, b, c, k);
    if k1 < k2 {
        assert(lex_less_at(lt, a, c, k1));
    } else if k2 < k1 {
        assert(lex_less_at(lt, a, c, k2));
    } else {
        assert(lex_less_at(lt, a, c, k1));
    }
}

/// Sequences that agree before `i` and differ are ordered one way or the
/// other.
proof fn lemma_lex_total_from<T>(lt: spec_fn(T, T) -> bool, a: Seq<T>, b: Seq<T>, i: int)
    requires
        strict_total(lt),
        a != b,
        0 <= i <= a.len(),
        i <= b.len(),
        forall|j: int| 0 <= j < i ==> a[j] == b[j],
    ensures
        lex_less(lt, a, b) || lex_less(lt, b, a),
    decreases a.len() - i,
{
    if i == a.len() {
        if i == b.len() {
            assert(a =~= b);
        } else {
            assert(lex_less_at(lt, a, b, i));
        }
    } else if i == b.len() {
        assert(lex_less_at(lt, b, a, i));
    } else if a[i] == b[i] {
        lemma_lex_total_from(lt, a, b, i + 1);
    } else if lt(a[i], b[i]) {
        assert(lex_less_at(lt, a, b, i));
    } else {
        assert(lt(b[i], a[i]));
        assert(lex_less_at(lt, b, a, i));
    }
}

/// Two different sequences are ordered one way or the other.
pub proof fn lemma_lex_total<T>(lt: spec_fn(T, T) -> bool, a: Seq<T>, b: Seq<T>)
    requires
        strict_total(lt),
        a != b,
    ensures
        lex_less(lt, a, b) || lex_less(lt, b, a),
{
    lemma_lex_total_from(lt, a, b, 0);
}

/// The order of characters by code point.
pub open spec fn char_less() -> spec_fn(char, char) -> bool {
    |x: char, y: char| (x as u32) < (y as u32)
}

/// Whether the string `a` comes before `b`: lexicographically, character by
/// character, by code point.
pub open spec fn str_less(a: Seq<char>, b: Seq<char>) -> bool {
    lex_less(char_less(), a, b)
}

/// The order of names.
pub open spec fn name_less() -> spec_fn(Seq<char>, Seq<char>) -> bool {
    |a: Seq<char>, b: Seq<char>| str_less(a, b)
}

/// Whether the list of names `a` comes before `b`: lexicographically, name
/// by name.
pub open spec fn names_less(a: Seq<Seq<char>>, b: Seq<Seq<char>>) -> bool {
    lex_less(name_less(), a, b)
}

/// The order of characters is a strict total order.
pub proof fn lemma_char_order()
    ensures
        strict_total(char_less()),
{
    let lt = char_less();
    assert forall|x: char| !#[trigger] lt(x, x) by {}
    assert forall|x: char, y: char, z: char| #[trigger] lt(x, y) && #[trigger] lt(y, z) implies lt(
        x,
        z,
    ) by {}
    assert forall|x: char, y: char| x != y implies #[trigger] lt(x, y) || lt(y, x) by {
        vstd::utf8::char_u32_cast(x, x as u32);
        vstd::utf8::char_u32_cast(y, y as u32);
    }
}

/// The order of names is a strict total order.
pub proof fn lemma_name_order()
    ensures
        strict_total(name_less()),
{
    lemma_char_order();
    let lt = name_less();
    assert forall|x: Seq<char>| !#[trigger] lt(x, x) by {
        lemma_lex_irreflexive(char_less(), x);
    }
    assert forall|x: Seq<char>, y: Seq<char>, z: Seq<char>| #[trigger]
        lt(x, y) && #[trigger] lt(y, z) implies lt(x, z) by {
        lemma_lex_transitive(char_less(), x, y, z);
    }
    assert forall|x: Seq<char>, y: Seq<char>| x != y implies #[trigger] lt(x, y) || lt(y, x) by {
        lemma_lex_total(char_less(), x, y);
    }
}

/// No string comes before itself.
pub proof fn lemma_str_irreflexive(a: Seq<char>)
    ensures
        !str_less(a, a),
{
    lemma_char_order();
    lemma_lex_irreflexive(char_less(), a);
}

/// The order of strings is transitive.
pub proof fn lemma_str_transitive(a: Seq<char>, b: Seq<char>, c: Seq<char>)
    requires
        str_less(a, b),
        str_less(b, c),
    ensures
        str_less(a, c),
{
    lemma_char_order();
    lemma_lex_transitive(char_less(), a, b, c);
}

/// Two different strings are ordered one way or the other.
pub proof fn lemma_str_total(a: Seq<char>, b: Seq<char>)
    requires
        a != b,
    ensures
        str_less(a, b) || str_less(b, a),
{
    lemma_char_order();
    lemma_lex_total(char_less(), a, b);
}

/// No list of names comes before itself.
pub proof fn lemma_names_irreflexive(a: Seq<Seq<char>>)
    ensures
        !names_less(a, a),
{
    lemma_name_order();
    lemma_lex_irreflexive(name_less(), a);
}

/// The order of lists of names is transitive.
pub proof fn lemma_names_transitive(a: Seq<Seq<char>>, b: Seq<Seq<char>>, c: Seq<Seq<char>>)
    requires
        names_less(a, b),
        names_less(b, c),
    ensures
        names_less(a, c),
{
    lemma_name_order();
    lemma_lex_transitive(name_less(), a, b, c);
}

/// Two different lists of names are ordered one way or the other.
pub proof fn lemma_names_total(a: Seq<Seq<char>>, b: Seq<Seq<char>>)
    requires
        a != b,
    ensures
        names_less(a, b) || names_less(b, a),
{
    lemma_name_order();
    lemma_lex_total(name_less(), a, b);
}

/// Whether `s` ascends strictly in the order `lt`.
pub open spec fn ascending<T>(lt: spec_fn(T, T) -> bool, s: Seq<T>) -> bool {
    forall|i: int, j: int| 0 <= i < j < s.len() ==> lt(#[trigger] s[i], #[trigger] s[j])
}

/// Two lists in ascending order that hold the same items are the same
/// list.
pub proof fn lemma_ascending_unique<T>(lt: spec_fn(T, T) -> bool, a: Seq<T>, b: Seq<T>)
    requires
        strict_total(lt),
        ascending(lt, a),
        ascending(lt, b),
        forall|x: T| a.contains(x) <==> b.contains(x),
    ensures
        a == b,
    decreases a.len(),
{
    if a.len() == 0 {
        if b.len() > 0 {
            assert(b.contains(b[0]));
        }
        assert(a =~= b);
    } else if b.len() == 0 {
        assert(a.contains(a[0]));
    } else {
        let la = a.last();
        let lb = b.last();
        assert(a.contains(la));
        assert(b.contains(lb));
        let j = choose|j: int| 0 <= j < b.len() && b[j] == la;
        let i = choose|i: int| 0 <= i < a.len() && a[i] == lb;
        assert(!lt(la, la) && !lt(lb, lb));
        if j < b.len() - 1 {
            assert(lt(b[j], b[b.len() - 1]));
            if i < a.len() - 1 {
                assert(lt(a[i], a[a.len() - 1]));
                assert(lt(la, lb) && lt(lb, la));
                assert(lt(la, la));
            }
        }
        assert(la == lb);
        let da = a.drop_last();
        let db = b.drop_last();
        assert forall|x: T| da.contains(x) <==> db.contains(x) by {
            assert(!lt(x, x));
            if da.contains(x) {
                let k = choose|k: int| 0 <= k < da.len() && da[k] == x;
                assert(a[k] == x);
                assert(lt(a[k], a[a.len() - 1]));
                assert(a.contains(x));
                let h = choose|h: int| 0 <= h < b.len() && b[h] == x;
                assert(db[h] == x);
            }
            if db.contains(x) {
                let k = choose|k: int| 0 <= k < db.len() && db[k] == x;
                assert(b[k] == x);
                assert(lt(b[k], b[b.len() - 1]));
                assert(b.contains(x));
                let h = choose|h: int| 0 <= h < a.len() && a[h] == x;
                assert(da[h] == x);
            }
        }
        assert forall|p: int, q: int| 0 <= p < q < da.len() implies lt(
            #[trigger] da[p],
            #[trigger] da[q],
        ) by {
            assert(lt(a[p], a[q]));
        }
        assert forall|p: int, q: int| 0 <= p < q < db.len() implies lt(
            #[trigger] db[p],
            #[trigger] db[q],
        ) by {
            assert(lt(b[p], b[q]));
        }
        lemma_ascending_unique(lt, da, db);
        assert(a =~= da.push(la));
        assert(b =~= db.push(lb));
    }
}

/// Two lists of names in ascending order that hold the same names are the
/// same list.
pub proof fn lemma_ascending_same_members(a: Seq<Seq<char>>, b: Seq<Seq<char>>)
    requires
        ascending(name_less(), a),
        ascending(name_less(), b),
        forall|x: Seq<char>| a.contains(x) <==> b.contains(x),
    ensures
        a == b,
{
    lemma_name_order();
    lemma_ascending_unique(name_less(), a, b);
}

/// The views of a list of strings.
pub open spec fn views(v: Seq<String>) -> Seq<Seq<char>> {
    Seq::new(v.len(), |i: int| v[i]@)
}

/// Whether the string `a` comes before `b`.
pub fn str_lt(a: &str, b: &str) -> (r: bool)
    ensures
        r == str_less(a@, b@),
{
    let mut xs = a.chars();
    let mut ys = b.chars();
    let ghost mut k: int = 0;
    assert(a@.skip(0) =~= a@);
    assert(b@.skip(0) =~= b@);
    loop
        invariant
            0 <= k <= a@.len(),
            k <= b@.len(),
            xs.remaining() == a@.skip(k),
            ys.remaining() == b@.skip(k),
            forall|i: int| 0 <= i < k ==> a@[i] == b@[i],
        decreases a@.len() - k,
    {
        let x = xs.next();
        let y = ys.next();
        match (x, y) {
            (Some(c), Some(d)) => {
                assert(c == a@[k] && d == b@[k]);
                if c != d {
                    let less = (c as u32) < (d as u32);
                    proof {
                        lemma_first_difference(a@, b@, k);
                    }
                    return less;
                }
                assert(a@.skip(k).drop_first() =~= a@.skip(k + 1));
                assert(b@.skip(k).drop_first() =~= b@.skip(k + 1));
                proof {
                    k = k + 1;
                }
            },
            (None, Some(_)) => {
                assert(lex_less_at(char_less(), a@, b@, k));
                return true;
            },
            (_, None) => {
                proof {
                    lemma_longer_not_less(a@, b@, k);
                }
                return false;
            },
        }
    }
}

/// Where `a` and `b` agree before position `k` and differ there, `a`
/// comes before `b` just when its character at `k` is the smaller.
pub proof fn lemma_first_difference(a: Seq<char>, b: Seq<char>, k: int)
    requires
        0 <= k < a.len(),
        k < b.len(),
        forall|i: int| 0 <= i < k ==> a[i] == b[i],
        a[k] != b[k],
    ensures
        str_less(a, b) == char_less()(a[k], b[k]),
{
    if char_less()(a[k], b[k]) {
        assert(lex_less_at(char_less(), a, b, k));
    }
    if str_less(a, b) {
        let j = choose|j: int| lex_less_at(char_less(), a, b, j);
        if j < k {
            assert(a[j] == b[j]);
        }
    }
}

/// Where `a` and `b` agree before position `k` and `b` ends there, `a`
/// does not come before `b`.
pub proof fn lemma_longer_not_less(a: Seq<char>, b: Seq<char>, k: int)
    requires
        0 <= k <= a.len(),
        k == b.len(),
        forall|i: int| 0 <= i < k ==> a[i] == b[i],
    ensures
        !str_less(a, b),
{
    if str_less(a, b) {
        let j = choose|j: int| lex_less_at(char_less(), a, b, j);
        assert(a[j] == b[j]);
    }
}

/// Whether the list of names `a` comes before `b`.
pub fn names_lt(a: &Vec<String>, b: &Vec<String>) -> (r: bool)
    ensures
        r == names_less(views(a@), views(b@)),
{
    let ghost x = views(a@);
    let ghost y = views(b@);
    proof {
        lemma_name_order();
    }
    let mut i: usize = 0;
    loop
        invariant
            i <= a.len(),
            i <= b.len(),
            x == views(a@),
            y == views(b@),
            strict_total(name_less()),
            forall|j: int| 0 <= j < i ==> x[j] == y[j],
        decreases a.len() - i,
    {
        if i == a.len() {
            if i < b.len() {
                assert(lex_less_at(name_less(), x, y, i as int));
                return true;
            }
            return false;
        }
        if i == b.len() {
            return false;
        }
        if str_lt(a[i].as_str(), b[i].as_str()) {
            assert(name_less()(x[i as int], y[i as int]));
            assert(lex_less_at(name_less(), x, y, i as int));
            return true;
        }
        if str_lt(b[i].as_str(), a[i].as_str()) {
            assert(name_less()(y[i as int], x[i as int]));
            return false;
        }
        assert(!name_less()(x[i as int], y[i as int]));
        assert(!name_less()(y[i as int], x[i as int]));
        assert(x[i as int] == y[i as int]);
        i += 1;
    }
}

} // verus!
