//! Stable ordering of scaffolds by length: its definition, its laws, and a merge sort.

use crate::cli::Direction;
use crate::generics::scaffold::{models, Scaffold, ScaffoldView};
use vstd::prelude::*;

verus! {

/// Whether a scaffold of length `a` may stand before one of length `b`.
pub open spec fn in_order(a: nat, b: nat, direction: Direction) -> bool {
    match direction {
        Direction::Ascending => a <= b,
        Direction::Descending => a >= b,
    }
}

/// Every scaffold may stand before all that follow it.
pub open spec fn sorted_by_length(s: Seq<ScaffoldView>, direction: Direction) -> bool {
    forall|i: int, j: int|
        0 <= i < j < s.len() ==> in_order(s[i].scaff_length, s[j].scaff_length, direction)
}

/// The scaffolds of `s` whose length is `length`, in the order in which `s` holds them.
pub open spec fn of_length(s: Seq<ScaffoldView>, length: nat) -> Seq<ScaffoldView> {
    s.filter(|x: ScaffoldView| x.scaff_length == length)
}

/// `r` holds the scaffolds of `s` ordered by length, those of equal length in the
/// order in which `s` holds them.
pub open spec fn is_stable_sort(
    r: Seq<ScaffoldView>,
    s: Seq<ScaffoldView>,
    direction: Direction,
) -> bool {
    &&& sorted_by_length(r, direction)
    &&& forall|length: nat| #[trigger] of_length(r, length) == of_length(s, length)
}

/// `sorted` with `x` put behind every scaffold that may stand before it.
pub open spec fn insert_by_length(
    sorted: Seq<ScaffoldView>,
    x: ScaffoldView,
    direction: Direction,
) -> Seq<ScaffoldView>
    decreases sorted.len(),
{
    if sorted.len() == 0 || in_order(sorted.last().scaff_length, x.scaff_length, direction) {
        sorted.push(x)
    } else {
        insert_by_length(sorted.drop_last(), x, direction).push(sorted.last())
    }
}

/// The scaffolds of `s` in stable order of length.
pub open spec fn sort_by_length(s: Seq<ScaffoldView>, direction: Direction) -> Seq<ScaffoldView>
    decreases s.len(),
{
    if s.len() == 0 {
        s
    } else {
        insert_by_length(sort_by_length(s.drop_last(), direction), s.last(), direction)
    }
}

/// Filtering by length after a push.
pub proof fn lemma_of_length_push(s: Seq<ScaffoldView>, x: ScaffoldView, length: nat)
    ensures
        of_length(s.push(x), length) == if x.scaff_length == length {
            of_length(s, length).push(x)
        } else {
            of_length(s, length)
        },
{
    reveal_with_fuel(Seq::filter, 2);
    assert(s.push(x).drop_last() =~= s);
}

/// Filtering by length distributes over concatenation.
pub proof fn lemma_of_length_add(a: Seq<ScaffoldView>, b: Seq<ScaffoldView>, length: nat)
    ensures
        of_length(a + b, length) == of_length(a, length) + of_length(b, length),
{
    Seq::filter_distributes_over_add(a, b, |x: ScaffoldView| x.scaff_length == length);
}

/// A sequence that holds no scaffold of a length has nothing of that length.
pub proof fn lemma_of_length_absent(s: Seq<ScaffoldView>, length: nat)
    requires
        forall|i: int| 0 <= i < s.len() ==> s[i].scaff_length != length,
    ensures
        of_length(s, length) == Seq::<ScaffoldView>::empty(),
{
    s.lemma_all_neg_filter_empty(|x: ScaffoldView| x.scaff_length == length);
    assert(of_length(s, length) =~= Seq::<ScaffoldView>::empty());
}

/// Inserting keeps every bound that held of the sequence and of the new scaffold.
proof fn lemma_insert_bounded(
    sorted: Seq<ScaffoldView>,
    x: ScaffoldView,
    direction: Direction,
    bound: nat,
)
    requires
        in_order(x.scaff_length, bound, direction),
        forall|j: int| 0 <= j < sorted.len() ==> in_order(sorted[j].scaff_length, bound, direction),
    ensures
        insert_by_length(sorted, x, direction).len() == sorted.len() + 1,
        forall|i: int|
            0 <= i < sorted.len() + 1 ==> in_order(
                #[trigger] insert_by_length(sorted, x, direction)[i].scaff_length,
                bound,
                direction,
            ),
    decreases sorted.len(),
{
    if !(sorted.len() == 0 || in_order(sorted.last().scaff_length, x.scaff_length, direction)) {
        lemma_insert_bounded(sorted.drop_last(), x, direction, bound);
    }
}

/// Inserting into a sorted sequence gives a sorted sequence that holds, for each
/// length, what the sequence with the new scaffold at its end holds.
pub proof fn lemma_insert_by_length(sorted: Seq<ScaffoldView>, x: ScaffoldView, direction: Direction)
    requires
        sorted_by_length(sorted, direction),
    ensures
        insert_by_length(sorted, x, direction).len() == sorted.len() + 1,
        sorted_by_length(insert_by_length(sorted, x, direction), direction),
        forall|length: nat| #[trigger]
            of_length(insert_by_length(sorted, x, direction), length) == of_length(
                sorted.push(x),
                length,
            ),
    decreases sorted.len(),
{
    let r = insert_by_length(sorted, x, direction);
    if sorted.len() == 0 || in_order(sorted.last().scaff_length, x.scaff_length, direction) {
        assert forall|i: int, j: int| 0 <= i < j < r.len() implies in_order(
            r[i].scaff_length,
            r[j].scaff_length,
            direction,
        ) by {
            if j == sorted.len() && i < sorted.len() - 1 {
                assert(in_order(sorted[i].scaff_length, sorted.last().scaff_length, direction));
            }
        }
    } else {
        let rest = sorted.drop_last();
        let last = sorted.last();
        let inner = insert_by_length(rest, x, direction);
        lemma_insert_by_length(rest, x, direction);
        lemma_insert_bounded(rest, x, direction, last.scaff_length);
        assert(sorted_by_length(r, direction));
        assert forall|length: nat| #[trigger]
            of_length(r, length) == of_length(sorted.push(x), length) by {
            lemma_of_length_push(inner, last, length);
            assert(of_length(inner, length) == of_length(rest.push(x), length));
            lemma_of_length_push(rest, x, length);
            assert(sorted =~= rest.push(last));
            lemma_of_length_push(rest, last, length);
            lemma_of_length_push(sorted, x, length);
        }
    }
}

/// What `sort_by_length` gives is ordered by length, and for each length it holds
/// the scaffolds of that length in their order in the input.
pub proof fn lemma_sort_by_length_is_stable(s: Seq<ScaffoldView>, direction: Direction)
    ensures
        sort_by_length(s, direction).len() == s.len(),
        is_stable_sort(sort_by_length(s, direction), s, direction),
    decreases s.len(),
{
    if s.len() == 0 {
    } else {
        let rest = s.drop_last();
        let inner = sort_by_length(rest, direction);
        lemma_sort_by_length_is_stable(rest, direction);
        lemma_insert_by_length(inner, s.last(), direction);
        assert forall|length: nat| #[trigger]
            of_length(sort_by_length(s, direction), length) == of_length(s, length) by {
            assert(of_length(inner, length) == of_length(rest, length));
            lemma_of_length_push(inner, s.last(), length);
            lemma_of_length_push(rest, s.last(), length);
            assert(s =~= rest.push(s.last()));
        }
    }
}

/// A scaffold that a sequence holds is held by what the sequence has of its length.
proof fn lemma_of_length_holds(s: Seq<ScaffoldView>, i: int)
    requires
        0 <= i < s.len(),
    ensures
        of_length(s, s[i].scaff_length).contains(s[i]),
        of_length(s, s[i].scaff_length).len() > 0,
{
    let pred = |x: ScaffoldView| x.scaff_length == s[i].scaff_length;
    s.lemma_filter_contains(pred, i);
}

/// What a sequence has of a length is held by the sequence, and has that length.
proof fn lemma_of_length_member(s: Seq<ScaffoldView>, length: nat, k: int)
    requires
        0 <= k < of_length(s, length).len(),
    ensures
        of_length(s, length)[k].scaff_length == length,
        s.contains(of_length(s, length)[k]),
{
    let pred = |x: ScaffoldView| x.scaff_length == length;
    s.lemma_filter_pred(pred, k);
    assert(s.filter(pred).contains(s.filter(pred)[k]));
    s.lemma_filter_contains_rev(pred, s.filter(pred)[k]);
}

/// Two sequences ordered by length that hold, for each length, the same scaffolds
/// in the same order are one sequence.
pub proof fn lemma_stable_order_unique(
    a: Seq<ScaffoldView>,
    b: Seq<ScaffoldView>,
    direction: Direction,
)
    requires
        sorted_by_length(a, direction),
        sorted_by_length(b, direction),
        forall|length: nat| #[trigger] of_length(a, length) == of_length(b, length),
    ensures
        a == b,
    decreases a.len(),
{
    if a.len() == 0 {
        if b.len() > 0 {
            lemma_of_length_holds(b, 0);
            let l = b[0].scaff_length;
            assert(of_length(a, l) == of_length(b, l));
            lemma_of_length_absent(a, l);
        }
        assert(a =~= b);
    } else {
        let x = a.last();
        let l = x.scaff_length;
        let a0 = a.drop_last();
        assert(a =~= a0.push(x));
        lemma_of_length_push(a0, x, l);
        assert(of_length(a, l) == of_length(b, l));
        if b.len() == 0 {
            lemma_of_length_absent(b, l);
        }
        assert(b.len() > 0);
        let y = b.last();
        let m = y.scaff_length;
        let b0 = b.drop_last();
        assert(b =~= b0.push(y));
        lemma_of_length_push(b0, y, m);
        assert(of_length(a, m) == of_length(b, m));
        // `y` stands in `a`, so it may stand before `x`; and `x` stands in `b`.
        lemma_of_length_member(a, m, of_length(a, m).len() - 1);
        assert(of_length(a, m).last() == y);
        let i = choose|i: int| 0 <= i < a.len() && a[i] == y;
        assert(i < a.len() - 1 ==> in_order(a[i].scaff_length, a[a.len() - 1].scaff_length, direction));
        lemma_of_length_member(b, l, of_length(b, l).len() - 1);
        assert(of_length(b, l).last() == x);
        let j = choose|j: int| 0 <= j < b.len() && b[j] == x;
        assert(j < b.len() - 1 ==> in_order(b[j].scaff_length, b[b.len() - 1].scaff_length, direction));
        assert(l == m);
        assert(x == y);
        assert forall|length: nat| #[trigger] of_length(a0, length) == of_length(b0, length) by {
            lemma_of_length_push(a0, x, length);
            lemma_of_length_push(b0, y, length);
            assert(of_length(a, length) == of_length(b, length));
            if length == l {
                assert(of_length(a0, length) =~= of_length(a, length).drop_last());
                assert(of_length(b0, length) =~= of_length(b, length).drop_last());
            }
        }
        assert(sorted_by_length(a0, direction));
        assert(sorted_by_length(b0, direction));
        lemma_stable_order_unique(a0, b0, direction);
    }
}

/// A stable sort of `s` is `sort_by_length` of `s`.
pub proof fn lemma_stable_sort_is_sort_by_length(
    r: Seq<ScaffoldView>,
    s: Seq<ScaffoldView>,
    direction: Direction,
)
    requires
        is_stable_sort(r, s, direction),
    ensures
        r == sort_by_length(s, direction),
{
    lemma_sort_by_length_is_stable(s, direction);
    let t = sort_by_length(s, direction);
    assert forall|length: nat| #[trigger] of_length(r, length) == of_length(t, length) by {
        assert(of_length(r, length) == of_length(s, length));
        assert(of_length(t, length) == of_length(s, length));
    }
    lemma_stable_order_unique(r, t, direction);
}

/// Inserting adds the new scaffold and nothing else.
proof fn lemma_insert_permutes(sorted: Seq<ScaffoldView>, x: ScaffoldView, direction: Direction)
    ensures
        insert_by_length(sorted, x, direction).to_multiset() == sorted.to_multiset().insert(x),
    decreases sorted.len(),
{
    broadcast use vstd::seq_lib::to_multiset_build;

    if sorted.len() == 0 || in_order(sorted.last().scaff_length, x.scaff_length, direction) {
    } else {
        let rest = sorted.drop_last();
        lemma_insert_permutes(rest, x, direction);
        assert(sorted =~= rest.push(sorted.last()));
        assert(rest.to_multiset().insert(x).insert(sorted.last()) =~= rest.to_multiset().insert(
            sorted.last(),
        ).insert(x));
    }
}

/// Ordering by length neither adds a scaffold nor drops one: the result holds
/// each scaffold as often as the input does.
pub proof fn lemma_sort_by_length_permutes(s: Seq<ScaffoldView>, direction: Direction)
    ensures
        sort_by_length(s, direction).to_multiset() == s.to_multiset(),
        sort_by_length(s, direction).len() == s.len(),
    decreases s.len(),
{
    broadcast use vstd::seq_lib::to_multiset_build;

    lemma_sort_by_length_is_stable(s, direction);
    if s.len() > 0 {
        lemma_sort_by_length_permutes(s.drop_last(), direction);
        lemma_insert_permutes(sort_by_length(s.drop_last(), direction), s.last(), direction);
        assert(s =~= s.drop_last().push(s.last()));
    }
}

/// Where inserting puts the new scaffold: behind the last scaffold that may stand
/// before it, so before those only that may not.
pub proof fn lemma_insert_place(sorted: Seq<ScaffoldView>, x: ScaffoldView, direction: Direction) -> (p:
    int)
    ensures
        0 <= p <= sorted.len(),
        insert_by_length(sorted, x, direction) == sorted.insert(p, x),
        p > 0 ==> in_order(sorted[p - 1].scaff_length, x.scaff_length, direction),
        forall|k: int|
            p <= k < sorted.len() ==> !in_order(
                (#[trigger] sorted[k]).scaff_length,
                x.scaff_length,
                direction,
            ),
    decreases sorted.len(),
{
    if sorted.len() == 0 || in_order(sorted.last().scaff_length, x.scaff_length, direction) {
        assert(sorted.push(x) =~= sorted.insert(sorted.len() as int, x));
        sorted.len() as int
    } else {
        let rest = sorted.drop_last();
        let p = lemma_insert_place(rest, x, direction);
        assert(rest.insert(p, x).push(sorted.last()) =~= sorted.insert(p, x));
        assert forall|k: int| p <= k < sorted.len() implies !in_order(
            (#[trigger] sorted[k]).scaff_length,
            x.scaff_length,
            direction,
        ) by {
            if k < rest.len() {
                assert(sorted[k] == rest[k]);
            }
        }
        p
    }
}

/// Each scaffold stands at a later place of the input than those before it.
pub open spec fn in_original_order(s: Seq<ScaffoldView>) -> bool {
    forall|i: int, j: int|
        0 <= i < j < s.len() ==> (#[trigger] s[i]).original_position < (
        #[trigger] s[j]).original_position
}

/// Of two scaffolds of one length, the one that came first in the input stands first.
pub open spec fn equal_lengths_in_original_order(s: Seq<ScaffoldView>) -> bool {
    forall|i: int, j: int|
        0 <= i < j < s.len() && (#[trigger] s[i]).scaff_length == (#[trigger] s[j]).scaff_length
            ==> s[i].original_position < s[j].original_position
}

/// Stability: ordering by length leaves scaffolds of equal length in the order in
/// which the input holds them.
pub proof fn lemma_sort_keeps_original_order(s: Seq<ScaffoldView>, direction: Direction)
    requires
        in_original_order(s),
    ensures
        equal_lengths_in_original_order(sort_by_length(s, direction)),
        forall|i: int|
            0 <= i < s.len() ==> exists|k: int|
                0 <= k < s.len() && #[trigger] sort_by_length(s, direction)[i] == s[k],
    decreases s.len(),
{
    lemma_sort_by_length_is_stable(s, direction);
    if s.len() > 0 {
        let rest = s.drop_last();
        let x = s.last();
        let inner = sort_by_length(rest, direction);
        let r = sort_by_length(s, direction);
        assert(in_original_order(rest)) by {
            assert forall|i: int, j: int| 0 <= i < j < rest.len() implies (#[trigger] rest[i]).original_position
                < (#[trigger] rest[j]).original_position by {
                assert(rest[i] == s[i] && rest[j] == s[j]);
            }
        }
        lemma_sort_keeps_original_order(rest, direction);
        lemma_sort_by_length_is_stable(rest, direction);
        let p = lemma_insert_place(inner, x, direction);
        assert(r == inner.insert(p, x));
        assert forall|i: int| 0 <= i < inner.len() implies (#[trigger] inner[i]).original_position
            < x.original_position by {
            let k = choose|k: int| 0 <= k < rest.len() && inner[i] == rest[k];
            assert(rest[k] == s[k]);
        }
        assert forall|i: int| 0 <= i < s.len() implies exists|k: int|
            0 <= k < s.len() && #[trigger] r[i] == s[k] by {
            if i < p {
                assert(r[i] == inner[i]);
                let k = choose|k: int| 0 <= k < rest.len() && inner[i] == rest[k];
                assert(r[i] == s[k]);
            } else if i == p {
                assert(r[i] == s[s.len() - 1]);
            } else {
                assert(r[i] == inner[i - 1]);
                let k = choose|k: int| 0 <= k < rest.len() && inner[i - 1] == rest[k];
                assert(r[i] == s[k]);
            }
        }
        assert forall|i: int, j: int|
            0 <= i < j < r.len() && (#[trigger] r[i]).scaff_length == (
            #[trigger] r[j]).scaff_length implies r[i].original_position
            < r[j].original_position by {
            if j < p {
                assert(r[i] == inner[i] && r[j] == inner[j]);
            } else if j == p {
                assert(r[i] == inner[i]);
            } else if i < p {
                assert(r[i] == inner[i] && r[j] == inner[j - 1]);
            } else if i == p {
                assert(r[j] == inner[j - 1]);
                assert(!in_order(inner[j - 1].scaff_length, x.scaff_length, direction));
            } else {
                assert(r[i] == inner[i - 1] && r[j] == inner[j - 1]);
            }
        }
    }
}

/// Whether `a` may stand before `b`.
fn may_precede(a: &Scaffold, b: &Scaffold, direction: Direction) -> (r: bool)
    ensures
        r == in_order(a@.scaff_length, b@.scaff_length, direction),
{
    match direction {
        Direction::Ascending => a.scaff_length <= b.scaff_length,
        Direction::Descending => a.scaff_length >= b.scaff_length,
    }
}

/// The scaffolds of `v` from the last to the first.
fn reversed(v: Vec<Scaffold>) -> (r: Vec<Scaffold>)
    ensures
        r@ == v@.reverse(),
{
    let ghost all = v@;
    let mut rest = v;
    let mut out: Vec<Scaffold> = Vec::new();
    while rest.len() > 0
        invariant
            rest@.len() + out@.len() == all.len(),
            rest@ == all.take(rest@.len() as int),
            forall|i: int| 0 <= i < out@.len() ==> out@[i] == all[all.len() - 1 - i],
        decreases rest@.len(),
    {
        let x = rest.pop().unwrap();
        out.push(x);
    }
    assert(out@ =~= all.reverse());
    out
}

/// Merges two sequences ordered by length into one, a scaffold of `left` before
/// the scaffolds of `right` of its length.
fn merge(left: Vec<Scaffold>, right: Vec<Scaffold>, direction: Direction) -> (out: Vec<Scaffold>)
    requires
        sorted_by_length(left.deep_view(), direction),
        sorted_by_length(right.deep_view(), direction),
    ensures
        sorted_by_length(out.deep_view(), direction),
        forall|length: nat| #[trigger]
            of_length(out.deep_view(), length) == of_length(left.deep_view(), length) + of_length(
                right.deep_view(),
                length,
            ),
{
    let ghost l = models(left@);
    let ghost r = models(right@);
    assert(l =~= left.deep_view());
    assert(r =~= right.deep_view());
    // The next scaffold of each side is the last of its stack.
    let mut ls = reversed(left);
    let mut rs = reversed(right);
    let mut out: Vec<Scaffold> = Vec::new();
    let ghost mut i: int = 0;
    let ghost mut j: int = 0;
    proof {
        assert forall|length: nat| #[trigger]
            of_length(models(out@), length) == of_length(l.take(i), length) + of_length(
                r.take(j),
                length,
            ) by {
            lemma_of_length_absent(models(out@), length);
            lemma_of_length_absent(l.take(i), length);
            lemma_of_length_absent(r.take(j), length);
        }
    }
    while ls.len() > 0 || rs.len() > 0
        invariant
            0 <= i <= l.len(),
            0 <= j <= r.len(),
            ls@.len() == l.len() - i,
            rs@.len() == r.len() - j,
            forall|k: int| 0 <= k < ls@.len() ==> (#[trigger] ls@[k])@ == l[l.len() - 1 - k],
            forall|k: int| 0 <= k < rs@.len() ==> (#[trigger] rs@[k])@ == r[r.len() - 1 - k],
            sorted_by_length(l, direction),
            sorted_by_length(r, direction),
            sorted_by_length(models(out@), direction),
            forall|p: int, q: int|
                0 <= p < out@.len() && i <= q < l.len() ==> in_order(
                    (#[trigger] out@[p])@.scaff_length,
                    (#[trigger] l[q]).scaff_length,
                    direction,
                ),
            forall|p: int, q: int|
                0 <= p < out@.len() && j <= q < r.len() ==> in_order(
                    (#[trigger] out@[p])@.scaff_length,
                    (#[trigger] r[q]).scaff_length,
                    direction,
                ),
            forall|q: int|
                0 <= q < j && i < l.len() ==> !in_order(
                    l[i].scaff_length,
                    (#[trigger] r[q]).scaff_length,
                    direction,
                ),
            forall|length: nat| #[trigger]
                of_length(models(out@), length) == of_length(l.take(i), length) + of_length(
                    r.take(j),
                    length,
                ),
        decreases ls@.len() + rs@.len(),
    {
        let take_left = if rs.len() == 0 {
            true
        } else if ls.len() == 0 {
            false
        } else {
            may_precede(&ls[ls.len() - 1], &rs[rs.len() - 1], direction)
        };
        let ghost before = models(out@);
        if take_left {
            let x = ls.pop().unwrap();
            out.push(x);
            proof {
                let xv = l[i];
                assert(x@ == xv);
                assert(models(out@) =~= before.push(xv));
                assert forall|q: int| i + 1 <= q < l.len() implies in_order(
                    xv.scaff_length,
                    (#[trigger] l[q]).scaff_length,
                    direction,
                ) by {
                    assert(in_order(l[i].scaff_length, l[q].scaff_length, direction));
                }
                assert forall|q: int| j <= q < r.len() implies in_order(
                    xv.scaff_length,
                    (#[trigger] r[q]).scaff_length,
                    direction,
                ) by {
                    assert(in_order(xv.scaff_length, r[j].scaff_length, direction));
                    assert(j < q ==> in_order(r[j].scaff_length, r[q].scaff_length, direction));
                }
                assert forall|q: int| 0 <= q < j && i + 1 < l.len() implies !in_order(
                    l[i + 1].scaff_length,
                    (#[trigger] r[q]).scaff_length,
                    direction,
                ) by {
                    assert(in_order(l[i].scaff_length, l[i + 1].scaff_length, direction));
                }
                assert(l.take(i + 1) =~= l.take(i).push(xv));
                assert forall|length: nat| #[trigger]
                    of_length(models(out@), length) == of_length(l.take(i + 1), length)
                        + of_length(r.take(j), length) by {
                    lemma_of_length_push(before, xv, length);
                    lemma_of_length_push(l.take(i), xv, length);
                    assert(of_length(before, length) == of_length(l.take(i), length) + of_length(
                        r.take(j),
                        length,
                    ));
                    if xv.scaff_length == length {
                        lemma_of_length_absent(r.take(j), length);
                        assert(of_length(l.take(i), length).push(xv) + of_length(r.take(j), length)
                            =~= (of_length(l.take(i), length) + of_length(r.take(j), length)).push(
                            xv,
                        ));
                    }
                }
                i = i + 1;
            }
        } else {
            let y = rs.pop().unwrap();
            out.push(y);
            proof {
                let yv = r[j];
                assert(y@ == yv);
                assert(models(out@) =~= before.push(yv));
                assert forall|q: int| j + 1 <= q < r.len() implies in_order(
                    yv.scaff_length,
                    (#[trigger] r[q]).scaff_length,
                    direction,
                ) by {
                    assert(in_order(r[j].scaff_length, r[q].scaff_length, direction));
                }
                assert forall|q: int| i <= q < l.len() implies in_order(
                    yv.scaff_length,
                    (#[trigger] l[q]).scaff_length,
                    direction,
                ) by {
                    assert(!in_order(l[i].scaff_length, yv.scaff_length, direction));
                    assert(i < q ==> in_order(l[i].scaff_length, l[q].scaff_length, direction));
                }
                assert(r.take(j + 1) =~= r.take(j).push(yv));
                assert forall|length: nat| #[trigger]
                    of_length(models(out@), length) == of_length(l.take(i), length) + of_length(
                        r.take(j + 1),
                        length,
                    ) by {
                    lemma_of_length_push(before, yv, length);
                    lemma_of_length_push(r.take(j), yv, length);
                    assert(of_length(before, length) == of_length(l.take(i), length) + of_length(
                        r.take(j),
                        length,
                    ));
                    if yv.scaff_length == length {
                        assert(of_length(l.take(i), length) + of_length(r.take(j), length).push(yv)
                            =~= (of_length(l.take(i), length) + of_length(r.take(j), length)).push(
                            yv,
                        ));
                    }
                }
                j = j + 1;
            }
        }
    }
    proof {
        assert(l.take(i) =~= l);
        assert(r.take(j) =~= r);
        assert(out.deep_view() =~= models(out@));
    }
    out
}

/// Orders scaffolds by length in the given direction, those of equal length in the
/// order in which they came.
pub fn sort_scaffolds_by_length(v: Vec<Scaffold>, direction: Direction) -> (r: Vec<Scaffold>)
    ensures
        r.deep_view() == sort_by_length(v.deep_view(), direction),
    decreases v@.len(),
{
    let n = v.len();
    let ghost all = v.deep_view();
    if n <= 1 {
        proof {
            lemma_stable_sort_is_sort_by_length(all, all, direction);
        }
        return v;
    }
    let mut left = v;
    let right = left.split_off(n / 2);
    let ghost lv = left.deep_view();
    let ghost rv = right.deep_view();
    assert(all =~= lv + rv);
    let left = sort_scaffolds_by_length(left, direction);
    let right = sort_scaffolds_by_length(right, direction);
    proof {
        lemma_sort_by_length_is_stable(lv, direction);
        lemma_sort_by_length_is_stable(rv, direction);
    }
    let out = merge(left, right, direction);
    proof {
        assert forall|length: nat| #[trigger]
            of_length(out.deep_view(), length) == of_length(all, length) by {
            assert(of_length(left.deep_view(), length) == of_length(lv, length));
            assert(of_length(right.deep_view(), length) == of_length(rv, length));
            lemma_of_length_add(lv, rv, length);
        }
        lemma_stable_sort_is_sort_by_length(out.deep_view(), all, direction);
    }
    out
}

} // verus!
