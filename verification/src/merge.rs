//! Bringing the shaded pixels of several workers back into raster order.
//!
//! A worker hands back each pixel as `(i, j, value)`: column, row and
//! whatever was computed for it. The buffers of the workers arrive in no
//! particular order; sorting them by row and column restores the order in
//! which a single pass over the image would have produced them.

use vstd::prelude::*;
use vstd::seq_lib::*;
use crate::raster::row_major_le;

verus! {

/// The pixel that a shaded entry belongs to.
pub open spec fn key_of<T>(e: (u32, u32, T)) -> (u32, u32) {
    (e.0, e.1)
}

/// The pixels of a run of entries, in the order of the entries.
pub open spec fn keys<T>(s: Seq<(u32, u32, T)>) -> Seq<(u32, u32)> {
    Seq::new(s.len(), |n: int| key_of(s[n]))
}

/// The computed values of a run of entries, in the order of the entries.
pub open spec fn values<T>(s: Seq<(u32, u32, T)>) -> Seq<T> {
    Seq::new(s.len(), |n: int| s[n].2)
}

/// The test "this entry belongs to pixel `k`".
pub open spec fn has_key<T>(k: (u32, u32)) -> spec_fn((u32, u32, T)) -> bool {
    |e: (u32, u32, T)| key_of(e) == k
}

/// The entries of `s` that belong to pixel `k`, in their order in `s`.
pub open spec fn with_key<T>(s: Seq<(u32, u32, T)>, k: (u32, u32)) -> Seq<(u32, u32, T)> {
    s.filter(has_key(k))
}

/// No entry comes before one that precedes it in row-major order.
pub open spec fn in_key_order<T>(s: Seq<(u32, u32, T)>) -> bool {
    forall|a: int, b: int|
        #![trigger s[a], s[b]]
        0 <= a < b < s.len() ==> row_major_le(key_of(s[a]), key_of(s[b]))
}

/// `out` holds the entries of `input`, ordered by pixel, with entries of
/// one pixel left in the order they had in `input`.
pub open spec fn is_stable_sort_of<T>(out: Seq<(u32, u32, T)>, input: Seq<(u32, u32, T)>) -> bool {
    &&& in_key_order(out)
    &&& out.to_multiset() == input.to_multiset()
    &&& forall|k: (u32, u32)| #[trigger] with_key(out, k) == with_key(input, k)
}

/// `out` is what a stable merge of sorted `a` and `b` has produced after
/// consuming `x` entries of `a` and `y` entries of `b`.
spec fn merged_prefix<T>(
    out: Seq<(u32, u32, T)>,
    a: Seq<(u32, u32, T)>,
    b: Seq<(u32, u32, T)>,
    x: int,
    y: int,
) -> bool {
    &&& 0 <= x <= a.len()
    &&& 0 <= y <= b.len()
    &&& in_key_order(out)
    &&& out.to_multiset() == a.take(x).to_multiset().add(b.take(y).to_multiset())
    &&& forall|k: (u32, u32)| #[trigger]
        with_key(out, k) == with_key(a.take(x), k) + with_key(b.take(y), k)
    &&& x < a.len() ==> forall|n: int|
        0 <= n < out.len() ==> row_major_le(key_of(#[trigger] out[n]), key_of(a[x]))
    &&& y < b.len() ==> forall|n: int|
        0 <= n < out.len() ==> row_major_le(key_of(#[trigger] out[n]), key_of(b[y]))
    &&& x < a.len() ==> forall|n: int|
        0 <= n < y ==> !row_major_le(key_of(a[x]), key_of(#[trigger] b[n]))
}

/// Appending an entry appends it to the entries of its own pixel and to
/// those of no other.
proof fn lemma_with_key_push<T>(s: Seq<(u32, u32, T)>, e: (u32, u32, T), k: (u32, u32))
    ensures
        with_key(s.push(e), k) == if key_of(e) == k {
            with_key(s, k).push(e)
        } else {
            with_key(s, k)
        },
{
    s.lemma_filter_push(e, has_key(k));
}

/// A run in which no entry belongs to pixel `k` has no entries of `k`.
proof fn lemma_with_key_absent<T>(s: Seq<(u32, u32, T)>, k: (u32, u32))
    requires
        forall|n: int| 0 <= n < s.len() ==> key_of(#[trigger] s[n]) != k,
    ensures
        with_key(s, k) == Seq::<(u32, u32, T)>::empty(),
{
    let neg = |e: (u32, u32, T)| !has_key::<T>(k)(e);
    assert(s.all(neg));
    s.lemma_all_neg_filter_empty(has_key(k));
    assert(with_key(s, k) =~= Seq::<(u32, u32, T)>::empty());
}

/// The merge may take the next entry of `a` when `b` is used up or its
/// next entry does not come first.
proof fn lemma_merge_takes_left<T>(
    out: Seq<(u32, u32, T)>,
    a: Seq<(u32, u32, T)>,
    b: Seq<(u32, u32, T)>,
    x: int,
    y: int,
)
    requires
        merged_prefix(out, a, b, x, y),
        in_key_order(a),
        in_key_order(b),
        x < a.len(),
        y == b.len() || row_major_le(key_of(a[x]), key_of(b[y])),
    ensures
        merged_prefix(out.push(a[x]), a, b, x + 1, y),
{
    broadcast use group_to_multiset_ensures;

    let e = a[x];
    let next = out.push(e);
    a.lemma_take_succ_push(x);
    assert(next.to_multiset() =~= a.take(x + 1).to_multiset().add(b.take(y).to_multiset()));
    assert forall|k: (u32, u32)| #[trigger]
        with_key(next, k) == with_key(a.take(x + 1), k) + with_key(b.take(y), k) by {
        lemma_with_key_push(out, e, k);
        lemma_with_key_push(a.take(x), e, k);
        assert(with_key(out, k) == with_key(a.take(x), k) + with_key(b.take(y), k));
        if key_of(e) == k {
            assert forall|n: int| 0 <= n < b.take(y).len() implies key_of(
                #[trigger] b.take(y)[n],
            ) != k by {
                assert(!row_major_le(key_of(a[x]), key_of(b[n])));
            }
            lemma_with_key_absent(b.take(y), k);
            assert(with_key(a.take(x), k).push(e) =~= with_key(a.take(x), k).push(e)
                + Seq::<(u32, u32, T)>::empty());
            assert(with_key(a.take(x), k) + Seq::<(u32, u32, T)>::empty() =~= with_key(
                a.take(x),
                k,
            ));
        }
    }
    assert forall|p: int, q: int| 0 <= p < q < next.len() implies row_major_le(
        key_of(#[trigger] next[p]),
        key_of(#[trigger] next[q]),
    ) by {
        if q == out.len() {
            assert(row_major_le(key_of(out[p]), key_of(a[x])));
        } else {
            assert(row_major_le(key_of(out[p]), key_of(out[q])));
        }
    }
    if x + 1 < a.len() {
        assert(row_major_le(key_of(a[x]), key_of(a[x + 1])));
        assert forall|n: int| 0 <= n < next.len() implies row_major_le(
            key_of(#[trigger] next[n]),
            key_of(a[x + 1]),
        ) by {
            if n < out.len() {
                assert(row_major_le(key_of(out[n]), key_of(a[x])));
            }
        }
        assert forall|n: int| 0 <= n < y implies !row_major_le(
            key_of(a[x + 1]),
            key_of(#[trigger] b[n]),
        ) by {
            assert(!row_major_le(key_of(a[x]), key_of(b[n])));
        }
    }
    if y < b.len() {
        assert forall|n: int| 0 <= n < next.len() implies row_major_le(
            key_of(#[trigger] next[n]),
            key_of(b[y]),
        ) by {
            if n < out.len() {
                assert(row_major_le(key_of(out[n]), key_of(b[y])));
            }
        }
    }
}

/// The merge may take the next entry of `b` when `a` is used up or its
/// next entry comes strictly later.
proof fn lemma_merge_takes_right<T>(
    out: Seq<(u32, u32, T)>,
    a: Seq<(u32, u32, T)>,
    b: Seq<(u32, u32, T)>,
    x: int,
    y: int,
)
    requires
        merged_prefix(out, a, b, x, y),
        in_key_order(a),
        in_key_order(b),
        y < b.len(),
        x == a.len() || !row_major_le(key_of(a[x]), key_of(b[y])),
    ensures
        merged_prefix(out.push(b[y]), a, b, x, y + 1),
{
    broadcast use group_to_multiset_ensures;

    let e = b[y];
    let next = out.push(e);
    b.lemma_take_succ_push(y);
    assert(next.to_multiset() =~= a.take(x).to_multiset().add(b.take(y + 1).to_multiset()));
    assert forall|k: (u32, u32)| #[trigger]
        with_key(next, k) == with_key(a.take(x), k) + with_key(b.take(y + 1), k) by {
        lemma_with_key_push(out, e, k);
        lemma_with_key_push(b.take(y), e, k);
        assert(with_key(out, k) == with_key(a.take(x), k) + with_key(b.take(y), k));
        if key_of(e) == k {
            assert((with_key(a.take(x), k) + with_key(b.take(y), k)).push(e) =~= with_key(
                a.take(x),
                k,
            ) + with_key(b.take(y), k).push(e));
        }
    }
    assert forall|p: int, q: int| 0 <= p < q < next.len() implies row_major_le(
        key_of(#[trigger] next[p]),
        key_of(#[trigger] next[q]),
    ) by {
        if q == out.len() {
            assert(row_major_le(key_of(out[p]), key_of(b[y])));
        } else {
            assert(row_major_le(key_of(out[p]), key_of(out[q])));
        }
    }
    if x < a.len() {
        assert forall|n: int| 0 <= n < next.len() implies row_major_le(
            key_of(#[trigger] next[n]),
            key_of(a[x]),
        ) by {
            if n < out.len() {
                assert(row_major_le(key_of(out[n]), key_of(a[x])));
            }
        }
        assert forall|n: int| 0 <= n < y + 1 implies !row_major_le(
            key_of(a[x]),
            key_of(#[trigger] b[n]),
        ) by {
        }
    }
    if y + 1 < b.len() {
        assert(row_major_le(key_of(b[y]), key_of(b[y + 1])));
        assert forall|n: int| 0 <= n < next.len() implies row_major_le(
            key_of(#[trigger] next[n]),
            key_of(b[y + 1]),
        ) by {
            if n < out.len() {
                assert(row_major_le(key_of(out[n]), key_of(b[y])));
            }
        }
    }
}

/// Whether pixel `(ai, aj)` comes strictly before pixel `(bi, bj)` in
/// row-major order.
fn strictly_before(ai: u32, aj: u32, bi: u32, bj: u32) -> (r: bool)
    ensures
        r == !row_major_le((bi, bj), (ai, aj)),
{
    aj < bj || (aj == bj && ai < bi)
}

/// The entries of `v` from last to first.
fn reversed<E>(v: Vec<E>) -> (r: Vec<E>)
    ensures
        r@ == v@.reverse(),
{
    let ghost before = v@;
    let mut v = v;
    let mut r: Vec<E> = Vec::new();
    while v.len() > 0
        invariant
            v@.len() + r@.len() == before.len(),
            v@ == before.take(v@.len() as int),
            forall|n: int| 0 <= n < r@.len() ==> r@[n] == before[before.len() - 1 - n],
        decreases v.len(),
    {
        let e = v.pop().unwrap();
        r.push(e);
    }
    assert(r@ =~= before.reverse());
    r
}

/// Drops the pixel tags and keeps the values, in the order of the entries.
pub fn into_values<T>(v: Vec<(u32, u32, T)>) -> (out: Vec<T>)
    ensures
        out@ == values(v@),
{
    let ghost before = v@;
    let mut rest = reversed(v);
    let mut out: Vec<T> = Vec::new();
    while rest.len() > 0
        invariant
            rest@.len() + out@.len() == before.len(),
            forall|n: int| 0 <= n < rest@.len() ==> rest@[n] == before[before.len() - 1 - n],
            forall|n: int| 0 <= n < out@.len() ==> out@[n] == before[n].2,
        decreases rest.len(),
    {
        let e = rest.pop().unwrap();
        out.push(e.2);
    }
    assert(out@ =~= values(before));
    out
}

/// Merges two sorted runs into one. Among entries of one pixel, those of
/// `a` come first.
fn merge_runs<T>(a: Vec<(u32, u32, T)>, b: Vec<(u32, u32, T)>) -> (out: Vec<(u32, u32, T)>)
    requires
        in_key_order(a@),
        in_key_order(b@),
    ensures
        in_key_order(out@),
        out@.to_multiset() == a@.to_multiset().add(b@.to_multiset()),
        forall|k: (u32, u32)| #[trigger] with_key(out@, k) == with_key(a@, k) + with_key(b@, k),
{
    let ghost left = a@;
    let ghost right = b@;
    let mut ra = reversed(a);
    let mut rb = reversed(b);
    let mut out: Vec<(u32, u32, T)> = Vec::new();
    proof {
        broadcast use group_to_multiset_ensures;
        broadcast use vstd::multiset::group_multiset_axioms;

        assert(left.take(0) =~= Seq::<(u32, u32, T)>::empty());
        assert(right.take(0) =~= Seq::<(u32, u32, T)>::empty());
        assert(out@ =~= Seq::<(u32, u32, T)>::empty());
        vstd::multiset::lemma_multiset_empty_len(out@.to_multiset());
        assert(out@.to_multiset() =~= left.take(0).to_multiset().add(right.take(0).to_multiset()));
        assert forall|k: (u32, u32)| #[trigger]
            with_key(out@, k) == with_key(left.take(0), k) + with_key(right.take(0), k) by {
            lemma_with_key_absent(out@, k);
            lemma_with_key_absent(left.take(0), k);
            lemma_with_key_absent(right.take(0), k);
            assert(with_key(out@, k) =~= with_key(left.take(0), k) + with_key(right.take(0), k));
        }
    }
    while ra.len() > 0 || rb.len() > 0
        invariant
            in_key_order(left),
            in_key_order(right),
            ra@.len() <= left.len(),
            rb@.len() <= right.len(),
            forall|n: int| 0 <= n < ra@.len() ==> ra@[n] == left[left.len() - 1 - n],
            forall|n: int| 0 <= n < rb@.len() ==> rb@[n] == right[right.len() - 1 - n],
            merged_prefix(out@, left, right, left.len() - ra@.len(), right.len() - rb@.len()),
        decreases ra@.len() + rb@.len(),
    {
        let ghost x = left.len() - ra@.len();
        let ghost y = right.len() - rb@.len();
        let from_right = if ra.len() == 0 {
            true
        } else if rb.len() == 0 {
            false
        } else {
            let ea = &ra[ra.len() - 1];
            let eb = &rb[rb.len() - 1];
            strictly_before(eb.0, eb.1, ea.0, ea.1)
        };
        if from_right {
            let e = rb.pop().unwrap();
            proof {
                lemma_merge_takes_right(out@, left, right, x, y);
            }
            out.push(e);
        } else {
            let e = ra.pop().unwrap();
            proof {
                lemma_merge_takes_left(out@, left, right, x, y);
            }
            out.push(e);
        }
    }
    proof {
        assert(left.take(left.len() as int) =~= left);
        assert(right.take(right.len() as int) =~= right);
    }
    out
}

/// Sorts shaded pixels by row, then by column. Entries that name the same
/// pixel keep the order in which they came.
pub fn sort_by_pixel<T>(v: Vec<(u32, u32, T)>) -> (out: Vec<(u32, u32, T)>)
    ensures
        is_stable_sort_of(out@, v@),
    decreases v@.len(),
{
    let ghost whole = v@;
    let mut v = v;
    let n = v.len();
    if n <= 1 {
        return v;
    }
    let tail = v.split_off(n / 2);
    let ghost front = v@;
    let ghost back = tail@;
    let a = sort_by_pixel(v);
    let b = sort_by_pixel(tail);
    let out = merge_runs(a, b);
    proof {
        assert(whole =~= front + back);
        lemma_multiset_commutative(front, back);
        assert forall|k: (u32, u32)| #[trigger] with_key(out@, k) == with_key(whole, k) by {
            Seq::filter_distributes_over_add(front, back, has_key(k));
            assert(with_key(a@, k) == with_key(front, k));
            assert(with_key(b@, k) == with_key(back, k));
        }
    }
    out
}

/// Two sorted runs with the same entries, and with the entries of each
/// pixel in the same order, are the same run.
proof fn lemma_same_ties_same_run<T>(a: Seq<(u32, u32, T)>, b: Seq<(u32, u32, T)>)
    requires
        in_key_order(a),
        in_key_order(b),
        a.to_multiset() == b.to_multiset(),
        forall|k: (u32, u32)| #[trigger] with_key(a, k) == with_key(b, k),
    ensures
        a == b,
    decreases a.len(),
{
    broadcast use group_to_multiset_ensures;

    assert(a.len() == a.to_multiset().len());
    assert(b.len() == b.to_multiset().len());
    if a.len() == 0 {
        assert(a =~= b);
    } else {
        let e = a.last();
        let f = b.last();
        let k = key_of(e);
        let shorter_a = a.drop_last();
        let shorter_b = b.drop_last();
        assert(a =~= shorter_a.push(e));
        assert(b =~= shorter_b.push(f));
        // the last entries belong to the same pixel
        assert(key_of(f) == k) by {
            assert(b.contains(f));
            assert(b.to_multiset().count(f) > 0);
            assert(a.contains(f));
            let m = choose|m: int| 0 <= m < a.len() && a[m] == f;
            if m < a.len() - 1 {
                assert(row_major_le(key_of(a[m]), key_of(a[a.len() - 1])));
            }
            assert(a.contains(e));
            assert(a.to_multiset().count(e) > 0);
            assert(b.contains(e));
            let n = choose|n: int| 0 <= n < b.len() && b[n] == e;
            if n < b.len() - 1 {
                assert(row_major_le(key_of(b[n]), key_of(b[b.len() - 1])));
            }
        }
        // and are the same entry
        lemma_with_key_push(shorter_a, e, k);
        lemma_with_key_push(shorter_b, f, k);
        assert(with_key(a, k) == with_key(b, k));
        assert(with_key(shorter_a, k).push(e).last() == with_key(shorter_b, k).push(f).last());
        assert(e == f);
        assert(with_key(shorter_a, k) =~= with_key(shorter_a, k).push(e).drop_last());
        assert(with_key(shorter_b, k) =~= with_key(shorter_b, k).push(f).drop_last());
        assert forall|other: (u32, u32)| #[trigger]
            with_key(shorter_a, other) == with_key(shorter_b, other) by {
            lemma_with_key_push(shorter_a, e, other);
            lemma_with_key_push(shorter_b, f, other);
            assert(with_key(a, other) == with_key(b, other));
        }
        assert(shorter_a =~= a.remove(a.len() - 1));
        assert(shorter_b =~= b.remove(b.len() - 1));
        assert forall|p: int, q: int| 0 <= p < q < shorter_a.len() implies row_major_le(
            key_of(#[trigger] shorter_a[p]),
            key_of(#[trigger] shorter_a[q]),
        ) by {
            assert(row_major_le(key_of(a[p]), key_of(a[q])));
        }
        assert forall|p: int, q: int| 0 <= p < q < shorter_b.len() implies row_major_le(
            key_of(#[trigger] shorter_b[p]),
            key_of(#[trigger] shorter_b[q]),
        ) by {
            assert(row_major_le(key_of(b[p]), key_of(b[q])));
        }
        lemma_same_ties_same_run(shorter_a, shorter_b);
    }
}

/// Sorting by pixel has one result only: two runs that are both a stable
/// sort of the same input are equal.
pub proof fn lemma_stable_sort_is_unique<T>(
    a: Seq<(u32, u32, T)>,
    b: Seq<(u32, u32, T)>,
    input: Seq<(u32, u32, T)>,
)
    requires
        is_stable_sort_of(a, input),
        is_stable_sort_of(b, input),
    ensures
        a == b,
{
    assert forall|k: (u32, u32)| #[trigger] with_key(a, k) == with_key(b, k) by {
        assert(with_key(a, k) == with_key(input, k));
        assert(with_key(b, k) == with_key(input, k));
    }
    lemma_same_ties_same_run(a, b);
}

/// Two runs with the same entries name the same pixels equally often.
pub proof fn lemma_same_entries_same_keys<T>(a: Seq<(u32, u32, T)>, b: Seq<(u32, u32, T)>)
    requires
        a.to_multiset() == b.to_multiset(),
    ensures
        keys(a).to_multiset() == keys(b).to_multiset(),
    decreases a.len(),
{
    broadcast use group_to_multiset_ensures;

    assert(a.len() == a.to_multiset().len());
    assert(b.len() == b.to_multiset().len());
    if a.len() == 0 {
        assert(keys(a) =~= keys(b));
    } else {
        let e = a.last();
        assert(a.contains(e));
        assert(b.to_multiset().count(e) > 0);
        assert(b.contains(e));
        let m = choose|m: int| 0 <= m < b.len() && b[m] == e;
        let shorter_a = a.drop_last();
        let shorter_b = b.remove(m);
        assert(shorter_a =~= a.remove(a.len() - 1));
        assert(shorter_a.to_multiset() == shorter_b.to_multiset());
        lemma_same_entries_same_keys(shorter_a, shorter_b);
        assert(keys(a) =~= keys(shorter_a).push(key_of(e)));
        assert(keys(b) =~= keys(shorter_b).insert(m, key_of(e)));
    }
}

} // verus!
