//! De-duplication and sorting of core lists.
//!
//! De-duplication keeps the first occurrence of each index; it is done by
//! itertools and trusted against that crate's source.  Sorting is an
//! insertion sort verified against a specification-level reordering.

use vstd::prelude::*;

use itertools::Itertools;

verus! {

/// The subsequence of first occurrences: an element is kept exactly where
/// it has not already appeared.
pub open spec fn dedup_first(s: Seq<u32>) -> Seq<u32>
    decreases s.len(),
{
    if s.len() == 0 {
        Seq::<u32>::empty()
    } else {
        let rest = dedup_first(s.drop_last());
        if s.drop_last().contains(s.last()) {
            rest
        } else {
            rest.push(s.last())
        }
    }
}

/// Index of the first occurrence of `x` in `s`, or `-1` when absent.
pub open spec fn first_pos(s: Seq<u32>, x: u32) -> int {
    match s.index_of_first(x) {
        Some(i) => i,
        None => -1,
    }
}

proof fn lemma_cons_contains(h: u32, t: Seq<u32>, y: u32)
    ensures
        (seq![h] + t).contains(y) <==> (y == h || t.contains(y)),
{
    let r = seq![h] + t;
    assert(r[0] == h);
    if t.contains(y) {
        let k = choose|k: int| 0 <= k < t.len() && t[k] == y;
        assert(r[k + 1] == y);
    }
    if r.contains(y) {
        let k = choose|k: int| 0 <= k < r.len() && r[k] == y;
        if k > 0 {
            assert(t[k - 1] == y);
        }
    }
}

proof fn lemma_push_contains(s: Seq<u32>, a: u32, y: u32)
    ensures
        s.push(a).contains(y) <==> (y == a || s.contains(y)),
{
    let r = s.push(a);
    assert(r[r.len() - 1] == a);
    if s.contains(y) {
        let k = choose|k: int| 0 <= k < s.len() && s[k] == y;
        assert(r[k] == y);
    }
    if r.contains(y) {
        let k = choose|k: int| 0 <= k < r.len() && r[k] == y;
        if k < r.len() - 1 {
            assert(s[k] == y);
        }
    }
}

proof fn lemma_first_pos_props(s: Seq<u32>, x: u32)
    ensures
        s.contains(x) ==> 0 <= first_pos(s, x) < s.len() && s[first_pos(s, x)] == x && (forall|
            j: int,
        |
            0 <= j < first_pos(s, x) ==> s[j] != x),
        !s.contains(x) ==> first_pos(s, x) == -1,
{
    s.index_of_first_ensures(x);
}

proof fn lemma_first_pos_extend(s: Seq<u32>)
    requires
        s.len() > 0,
    ensures
        forall|x: u32|
            s.drop_last().contains(x) ==> first_pos(s, x) == first_pos(s.drop_last(), x),
        !s.drop_last().contains(s.last()) ==> first_pos(s, s.last()) == s.len() - 1,
{
    let d = s.drop_last();
    assert forall|x: u32| d.contains(x) implies first_pos(s, x) == first_pos(d, x) by {
        lemma_first_pos_props(d, x);
        let fd = first_pos(d, x);
        assert(s[fd] == x);
        assert(s.contains(x));
        lemma_first_pos_props(s, x);
        let fs = first_pos(s, x);
        if fs < fd {
            assert(d[fs] == s[fs]);
            assert(d[fs] != x);
        } else if fd < fs {
            assert(s[fd] != x);
        }
    }
    if !d.contains(s.last()) {
        assert(s[s.len() - 1] == s.last());
        assert(s.contains(s.last()));
        lemma_first_pos_props(s, s.last());
        let fs = first_pos(s, s.last());
        if fs < s.len() - 1 {
            assert(d[fs] == s.last());
            assert(d.contains(s.last()));
        }
    }
}

/// Law: de-duplication removes every repeated index, keeps exactly the
/// values of the input, and orders what it keeps by the position of each
/// value's first occurrence.
pub proof fn lemma_dedup_first_ensures(s: Seq<u32>)
    ensures
        dedup_first(s).no_duplicates(),
        forall|x: u32| dedup_first(s).contains(x) <==> s.contains(x),
        forall|i: int, j: int|
            0 <= i < j < dedup_first(s).len() ==> first_pos(s, dedup_first(s)[i]) < first_pos(
                s,
                dedup_first(s)[j],
            ),
    decreases s.len(),
{
    if s.len() > 0 {
        let d = s.drop_last();
        let last = s.last();
        lemma_dedup_first_ensures(d);
        lemma_first_pos_extend(s);
        let r = dedup_first(s);
        let rd = dedup_first(d);
        assert(d.push(last) =~= s);
        assert forall|x: u32| r.contains(x) <==> s.contains(x) by {
            lemma_push_contains(d, last, x);
            if d.contains(last) {
                assert(r == rd);
            } else {
                assert(r == rd.push(last));
                lemma_push_contains(rd, last, x);
            }
        }
        if !d.contains(last) {
            assert(!rd.contains(last));
            assert forall|i: int, j: int|
                0 <= i < j < r.len() implies first_pos(s, r[i]) < first_pos(s, r[j]) by {
                assert(r == rd.push(last));
                if j < rd.len() {
                    assert(r[i] == rd[i] && r[j] == rd[j]);
                    assert(rd.contains(rd[i]) && rd.contains(rd[j]));
                    assert(d.contains(rd[i]) && d.contains(rd[j]));
                } else {
                    assert(r[j] == last);
                    assert(first_pos(s, last) == s.len() - 1);
                    assert(r[i] == rd[i]);
                    assert(rd.contains(rd[i]));
                    assert(d.contains(rd[i]));
                    lemma_first_pos_props(d, rd[i]);
                    assert(first_pos(s, rd[i]) == first_pos(d, rd[i]) < d.len());
                }
            }
        } else {
            assert(r == rd);
            assert forall|i: int, j: int|
                0 <= i < j < r.len() implies first_pos(s, r[i]) < first_pos(s, r[j]) by {
                assert(rd.contains(rd[i]) && rd.contains(rd[j]));
                assert(d.contains(rd[i]) && d.contains(rd[j]));
            }
        }
    }
}

/// An ascending (non-decreasing) list.
pub open spec fn sorted(s: Seq<u32>) -> bool {
    forall|i: int, j: int| 0 <= i < j < s.len() ==> s[i] <= s[j]
}

/// A strictly ascending list.
pub open spec fn strictly_sorted(s: Seq<u32>) -> bool {
    forall|i: int, j: int| 0 <= i < j < s.len() ==> s[i] < s[j]
}

/// Where `x` lands in an ascending list: before the first element not
/// below it.
pub open spec fn insert_sorted(x: u32, s: Seq<u32>) -> Seq<u32>
    decreases s.len(),
{
    if s.len() == 0 {
        seq![x]
    } else if x <= s[0] {
        seq![x] + s
    } else {
        seq![s[0]] + insert_sorted(x, s.skip(1))
    }
}

/// The ascending reordering of `s`.
pub open spec fn sort_u32(s: Seq<u32>) -> Seq<u32>
    decreases s.len(),
{
    if s.len() == 0 {
        Seq::<u32>::empty()
    } else {
        insert_sorted(s.last(), sort_u32(s.drop_last()))
    }
}

proof fn lemma_insert_sorted_ensures(x: u32, s: Seq<u32>)
    ensures
        insert_sorted(x, s).to_multiset() == s.to_multiset().insert(x),
        insert_sorted(x, s).len() == s.len() + 1,
        forall|y: u32| insert_sorted(x, s).contains(y) <==> (y == x || s.contains(y)),
        sorted(s) ==> sorted(insert_sorted(x, s)),
    decreases s.len(),
{
    broadcast use vstd::seq_lib::group_to_multiset_ensures;
    broadcast use vstd::multiset::group_multiset_axioms;

    let r = insert_sorted(x, s);
    if s.len() == 0 {
        assert(r =~= Seq::<u32>::empty().push(x));
        assert(s =~= Seq::<u32>::empty());
        assert(r.to_multiset() =~= s.to_multiset().insert(x));
        assert(r =~= seq![x] + s);
        assert forall|y: u32| r.contains(y) <==> (y == x || s.contains(y)) by {
            lemma_cons_contains(x, s, y);
        }
    } else if x <= s[0] {
        assert(r =~= seq![x] + s);
        vstd::seq_lib::lemma_multiset_commutative(seq![x], s);
        assert(seq![x] =~= Seq::<u32>::empty().push(x));
        assert(r.to_multiset() =~= s.to_multiset().insert(x));
        assert forall|y: u32| r.contains(y) <==> (y == x || s.contains(y)) by {
            lemma_cons_contains(x, s, y);
        }
        if sorted(s) {
            assert forall|i: int, j: int| 0 <= i < j < r.len() implies r[i] <= r[j] by {
                if i > 0 {
                    assert(r[i] == s[i - 1] && r[j] == s[j - 1]);
                }
            }
        }
    } else {
        let t = s.skip(1);
        lemma_insert_sorted_ensures(x, t);
        let rt = insert_sorted(x, t);
        assert(r =~= seq![s[0]] + rt);
        assert(s =~= seq![s[0]] + t);
        vstd::seq_lib::lemma_multiset_commutative(seq![s[0]], rt);
        vstd::seq_lib::lemma_multiset_commutative(seq![s[0]], t);
        assert(r.to_multiset() =~= s.to_multiset().insert(x));
        assert forall|y: u32| r.contains(y) <==> (y == x || s.contains(y)) by {
            lemma_cons_contains(s[0], rt, y);
            lemma_cons_contains(s[0], t, y);
        }
        if sorted(s) {
            assert forall|i: int, j: int| 0 <= i < j < t.len() implies t[i] <= t[j] by {
                assert(t[i] == s[i + 1] && t[j] == s[j + 1]);
            }
            assert(sorted(rt));
            assert forall|i: int, j: int| 0 <= i < j < r.len() implies r[i] <= r[j] by {
                if i == 0 {
                    let y = rt[j - 1];
                    assert(rt.contains(y));
                    if y == x {
                        assert(s[0] <= x);
                    } else {
                        assert(t.contains(y));
                        let k = choose|k: int| 0 <= k < t.len() && t[k] == y;
                        assert(t[k] == s[k + 1]);
                        assert(s[0] <= s[k + 1]);
                    }
                } else {
                    assert(r[i] == rt[i - 1] && r[j] == rt[j - 1]);
                }
            }
        }
    }
}

/// Law: sorting yields an ascending list with exactly the input's values,
/// multiplicities included, whatever the input order.
pub proof fn lemma_sort_u32_ensures(s: Seq<u32>)
    ensures
        sorted(sort_u32(s)),
        sort_u32(s).to_multiset() == s.to_multiset(),
        sort_u32(s).len() == s.len(),
        forall|y: u32| sort_u32(s).contains(y) <==> s.contains(y),
    decreases s.len(),
{
    broadcast use vstd::seq_lib::group_to_multiset_ensures;
    broadcast use vstd::multiset::group_multiset_axioms;

    if s.len() > 0 {
        let d = s.drop_last();
        lemma_sort_u32_ensures(d);
        lemma_insert_sorted_ensures(s.last(), sort_u32(d));
        assert(d.push(s.last()) =~= s);
        assert(sort_u32(s).to_multiset() =~= s.to_multiset());
        assert forall|y: u32| sort_u32(s).contains(y) <==> s.contains(y) by {
            assert(sort_u32(s).to_multiset().contains(y) <==> sort_u32(s).contains(y));
            assert(s.to_multiset().contains(y) <==> s.contains(y));
        }
    }
}

/// Law: an ascending list without duplicates is strictly ascending.
pub proof fn lemma_sorted_no_dup_strict(s: Seq<u32>)
    requires
        sorted(s),
        s.no_duplicates(),
    ensures
        strictly_sorted(s),
{
}

/// Law: sorting keeps a duplicate-free list duplicate-free.
pub proof fn lemma_sort_preserves_no_dup(s: Seq<u32>)
    requires
        s.no_duplicates(),
    ensures
        sort_u32(s).no_duplicates(),
{
    broadcast use vstd::multiset::group_multiset_axioms;

    lemma_sort_u32_ensures(s);
    s.lemma_multiset_has_no_duplicates();
    sort_u32(s).lemma_multiset_has_no_duplicates_conv();
}

/// Law: with de-duplication and sorting both requested, the final list is
/// strictly ascending, whatever the input order.
pub proof fn lemma_dedup_sort_strict(s: Seq<u32>)
    ensures
        strictly_sorted(sort_u32(dedup_first(s))),
{
    lemma_dedup_first_ensures(s);
    lemma_sort_preserves_no_dup(dedup_first(s));
    lemma_sort_u32_ensures(dedup_first(s));
    lemma_sorted_no_dup_strict(sort_u32(dedup_first(s)));
}

/// Relies on itertools' `Itertools::unique`: it yields each distinct value
/// once, the first time it is seen, in the input's order (duplicates are
/// detected by hash and equality, which for `u32` is value equality).
#[verifier::external_body]
pub(crate) fn dedup_cores(v: Vec<u32>) -> (r: Vec<u32>)
    ensures
        r@ == dedup_first(v@),
{
    v.into_iter().unique().collect()
}

/// First index whose element is not below `x`, or the length when all are.
fn insert_pos(v: &Vec<u32>, x: u32) -> (j: usize)
    ensures
        j <= v@.len(),
        forall|i: int| 0 <= i < j ==> v@[i] < x,
        j < v@.len() ==> x <= v@[j as int],
{
    let n = v.len();
    let mut j: usize = 0;
    while j < n
        invariant
            j <= n,
            n == v@.len(),
            forall|i: int| 0 <= i < j ==> v@[i] < x,
        decreases n - j,
    {
        if x <= v[j] {
            return j;
        }
        j = j + 1;
    }
    j
}

proof fn lemma_insert_sorted_at(x: u32, s: Seq<u32>, j: int)
    requires
        0 <= j <= s.len(),
        forall|i: int| 0 <= i < j ==> s[i] < x,
        j < s.len() ==> x <= s[j],
    ensures
        insert_sorted(x, s) == s.insert(j, x),
    decreases j,
{
    if j == 0 {
        if s.len() == 0 {
            assert(insert_sorted(x, s) =~= s.insert(0, x));
        } else {
            assert(x <= s[0]);
            assert(seq![x] + s =~= s.insert(0, x));
        }
    } else {
        assert(s[0] < x);
        lemma_insert_sorted_at(x, s.skip(1), j - 1);
        assert(seq![s[0]] + s.skip(1).insert(j - 1, x) =~= s.insert(j, x));
    }
}

fn insert_one(out: &mut Vec<u32>, x: u32)
    ensures
        final(out)@ == insert_sorted(x, old(out)@),
{
    let j = insert_pos(out, x);
    proof {
        lemma_insert_sorted_at(x, out@, j as int);
    }
    out.insert(j, x);
}

/// Sorts a core list ascending.
pub fn sort_cores(v: &Vec<u32>) -> (r: Vec<u32>)
    ensures
        r@ == sort_u32(v@),
{
    let mut out: Vec<u32> = Vec::new();
    let mut i: usize = 0;
    while i < v.len()
        invariant
            i <= v@.len(),
            out@ == sort_u32(v@.take(i as int)),
        decreases v@.len() - i,
    {
        let x = v[i];
        insert_one(&mut out, x);
        i = i + 1;
        proof {
            assert(v@.take(i as int).drop_last() =~= v@.take(i - 1));
            assert(v@.take(i as int).last() == v@[i - 1]);
        }
    }
    proof {
        assert(v@.take(v@.len() as int) =~= v@);
    }
    out
}

} // verus!
