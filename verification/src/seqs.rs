//! Sums, counts and searches over sequences, and the facts the other modules
//! need of them.

use vstd::prelude::*;

verus! {

/// The sum of `f` over the items of `s`.
pub open spec fn sum_of<A>(s: Seq<A>, f: spec_fn(A) -> int) -> int
    decreases s.len(),
{
    if s.len() == 0 {
        0
    } else {
        sum_of(s.drop_last(), f) + f(s.last())
    }
}

/// How many items of `s` satisfy `f`.
pub open spec fn count_of<A>(s: Seq<A>, f: spec_fn(A) -> bool) -> int
    decreases s.len(),
{
    if s.len() == 0 {
        0
    } else {
        count_of(s.drop_last(), f) + if f(s.last()) {
            1int
        } else {
            0int
        }
    }
}

/// The least index whose item satisfies `f`, or the length of `s` where none does.
pub open spec fn first_index<A>(s: Seq<A>, f: spec_fn(A) -> bool) -> int
    decreases s.len(),
{
    if s.len() == 0 {
        0
    } else {
        let before = first_index(s.drop_last(), f);
        if before < s.len() - 1 {
            before
        } else if f(s.last()) {
            s.len() - 1
        } else {
            s.len() as int
        }
    }
}

/// The items of `s` that satisfy `keep`, in order, each mapped by `f`.
pub open spec fn pick<A, B>(s: Seq<A>, keep: spec_fn(A) -> bool, f: spec_fn(A) -> B) -> Seq<B>
    decreases s.len(),
{
    if s.len() == 0 {
        Seq::empty()
    } else {
        let rest = pick(s.drop_last(), keep, f);
        if keep(s.last()) {
            rest.push(f(s.last()))
        } else {
            rest
        }
    }
}

/// The present values of a mapping to `Option`, in order.
pub open spec fn flatten<A>(s: Seq<Option<A>>) -> Seq<A>
    decreases s.len(),
{
    if s.len() == 0 {
        Seq::empty()
    } else {
        match s.last() {
            Some(a) => flatten(s.drop_last()).push(a),
            None => flatten(s.drop_last()),
        }
    }
}

/// The test for the items that must come after `x`.
pub open spec fn after_item<A>(x: A, before: spec_fn(A, A) -> bool) -> spec_fn(A) -> bool {
    |y: A| before(x, y)
}

/// `s` with `x` put in front of the first item that must come after it.
pub open spec fn place<A>(s: Seq<A>, x: A, before: spec_fn(A, A) -> bool) -> Seq<A> {
    s.insert(first_index(s, after_item(x, before)), x)
}

/// The items of `s` in the order that `before` gives, items that it does not
/// tell apart in the order in which they stand in `s`.
pub open spec fn arranged<A>(s: Seq<A>, before: spec_fn(A, A) -> bool) -> Seq<A>
    decreases s.len(),
{
    if s.len() == 0 {
        Seq::empty()
    } else {
        place(arranged(s.drop_last(), before), s.last(), before)
    }
}

/// `before` is an order in which two items may be level.
pub open spec fn ranks<A>(before: spec_fn(A, A) -> bool) -> bool {
    &&& forall|a: A, b: A| #[trigger] before(a, b) ==> !before(b, a)
    &&& forall|a: A, b: A, c: A|
        #![trigger before(b, a), before(c, b)]
        !before(b, a) && !before(c, b) ==> !before(c, a)
}

/// No item stands before one that must come before it.
pub open spec fn in_order<A>(s: Seq<A>, before: spec_fn(A, A) -> bool) -> bool {
    forall|i: int, j: int|
        #![trigger s[i], s[j]]
        0 <= i < j < s.len() ==> !before(s[j], s[i])
}

/// No value occurs twice.
pub open spec fn distinct<A>(s: Seq<A>) -> bool {
    forall|i: int, j: int|
        #![trigger s[i], s[j]]
        0 <= i < j < s.len() ==> s[i] != s[j]
}

pub proof fn lemma_sum_push<A>(s: Seq<A>, a: A, f: spec_fn(A) -> int)
    ensures
        sum_of(s.push(a), f) == sum_of(s, f) + f(a),
{
    assert(s.push(a).drop_last() =~= s);
}

pub proof fn lemma_sum_take<A>(s: Seq<A>, i: int, f: spec_fn(A) -> int)
    requires
        0 <= i < s.len(),
    ensures
        sum_of(s.take(i + 1), f) == sum_of(s.take(i), f) + f(s[i]),
{
    assert(s.take(i + 1).drop_last() =~= s.take(i));
}

pub proof fn lemma_sum_update<A>(s: Seq<A>, i: int, a: A, f: spec_fn(A) -> int)
    requires
        0 <= i < s.len(),
    ensures
        sum_of(s.update(i, a), f) == sum_of(s, f) - f(s[i]) + f(a),
    decreases s.len(),
{
    if i == s.len() - 1 {
        assert(s.update(i, a).drop_last() =~= s.drop_last());
    } else {
        assert(s.update(i, a).drop_last() =~= s.drop_last().update(i, a));
        lemma_sum_update(s.drop_last(), i, a, f);
    }
}

pub proof fn lemma_sum_nonneg<A>(s: Seq<A>, f: spec_fn(A) -> int)
    requires
        forall|i: int| 0 <= i < s.len() ==> f(#[trigger] s[i]) >= 0,
    ensures
        sum_of(s, f) >= 0,
    decreases s.len(),
{
    if s.len() > 0 {
        assert forall|i: int| 0 <= i < s.drop_last().len() implies f(
            #[trigger] s.drop_last()[i],
        ) >= 0 by {
            assert(s.drop_last()[i] == s[i]);
        }
        lemma_sum_nonneg(s.drop_last(), f);
        assert(f(s[s.len() - 1]) >= 0);
    }
}

/// A term of a sum of non-negative terms is at most the sum.
pub proof fn lemma_sum_member<A>(s: Seq<A>, i: int, f: spec_fn(A) -> int)
    requires
        0 <= i < s.len(),
        forall|k: int| 0 <= k < s.len() ==> f(#[trigger] s[k]) >= 0,
    ensures
        0 <= f(s[i]) <= sum_of(s, f),
    decreases s.len(),
{
    assert forall|k: int| 0 <= k < s.drop_last().len() implies f(#[trigger] s.drop_last()[k])
        >= 0 by {
        assert(s.drop_last()[k] == s[k]);
    }
    lemma_sum_nonneg(s.drop_last(), f);
    assert(f(s[s.len() - 1]) >= 0);
    if i < s.len() - 1 {
        lemma_sum_member(s.drop_last(), i, f);
        assert(s.drop_last()[i] == s[i]);
    }
    assert(f(s[i]) >= 0);
}

/// A partial sum of non-negative terms is at most the whole sum.
pub proof fn lemma_sum_prefix<A>(s: Seq<A>, i: int, f: spec_fn(A) -> int)
    requires
        0 <= i <= s.len(),
        forall|k: int| 0 <= k < s.len() ==> f(#[trigger] s[k]) >= 0,
    ensures
        0 <= sum_of(s.take(i), f) <= sum_of(s, f),
    decreases s.len() - i,
{
    assert forall|k: int| 0 <= k < s.take(i).len() implies f(#[trigger] s.take(i)[k]) >= 0 by {
        assert(s.take(i)[k] == s[k]);
    }
    lemma_sum_nonneg(s.take(i), f);
    if i == s.len() {
        assert(s.take(i) =~= s);
    } else {
        lemma_sum_prefix(s, i + 1, f);
        lemma_sum_take(s, i, f);
        assert(f(s[i]) >= 0);
    }
}

/// Sums of sequences of the same length whose terms agree are equal.
pub proof fn lemma_sum_same<A, B>(
    s: Seq<A>,
    t: Seq<B>,
    f: spec_fn(A) -> int,
    g: spec_fn(B) -> int,
)
    requires
        s.len() == t.len(),
        forall|i: int| 0 <= i < s.len() ==> f(#[trigger] s[i]) == g(t[i]),
    ensures
        sum_of(s, f) == sum_of(t, g),
    decreases s.len(),
{
    if s.len() > 0 {
        assert forall|i: int| 0 <= i < s.drop_last().len() implies f(#[trigger] s.drop_last()[i])
            == g(t.drop_last()[i]) by {
            assert(s.drop_last()[i] == s[i]);
        }
        lemma_sum_same(s.drop_last(), t.drop_last(), f, g);
        assert(f(s[s.len() - 1]) == g(t[t.len() - 1]));
    }
}

pub proof fn lemma_sum_concat<A>(s: Seq<A>, t: Seq<A>, f: spec_fn(A) -> int)
    ensures
        sum_of(s + t, f) == sum_of(s, f) + sum_of(t, f),
    decreases t.len(),
{
    if t.len() == 0 {
        assert(s + t =~= s);
    } else {
        assert((s + t).drop_last() =~= s + t.drop_last());
        lemma_sum_concat(s, t.drop_last(), f);
    }
}

/// The sum of `f` is the sum of `g` plus the sum of `h` where `f` is `g + h` term by term.
pub proof fn lemma_sum_split<A>(
    s: Seq<A>,
    f: spec_fn(A) -> int,
    g: spec_fn(A) -> int,
    h: spec_fn(A) -> int,
)
    requires
        forall|i: int| 0 <= i < s.len() ==> f(#[trigger] s[i]) == g(s[i]) + h(s[i]),
    ensures
        sum_of(s, f) == sum_of(s, g) + sum_of(s, h),
    decreases s.len(),
{
    if s.len() > 0 {
        assert forall|i: int| 0 <= i < s.drop_last().len() implies f(#[trigger] s.drop_last()[i])
            == g(s.drop_last()[i]) + h(s.drop_last()[i]) by {
            assert(s.drop_last()[i] == s[i]);
        }
        lemma_sum_split(s.drop_last(), f, g, h);
        assert(f(s[s.len() - 1]) == g(s[s.len() - 1]) + h(s[s.len() - 1]));
    }
}

pub proof fn lemma_count_take<A>(s: Seq<A>, i: int, f: spec_fn(A) -> bool)
    requires
        0 <= i < s.len(),
    ensures
        count_of(s.take(i + 1), f) == count_of(s.take(i), f) + if f(s[i]) {
            1int
        } else {
            0int
        },
{
    assert(s.take(i + 1).drop_last() =~= s.take(i));
}

pub proof fn lemma_count_bounds<A>(s: Seq<A>, f: spec_fn(A) -> bool)
    ensures
        0 <= count_of(s, f) <= s.len(),
    decreases s.len(),
{
    if s.len() > 0 {
        lemma_count_bounds(s.drop_last(), f);
    }
}

pub proof fn lemma_count_update<A>(s: Seq<A>, i: int, a: A, f: spec_fn(A) -> bool)
    requires
        0 <= i < s.len(),
    ensures
        count_of(s.update(i, a), f) == count_of(s, f) - (if f(s[i]) {
            1int
        } else {
            0int
        }) + if f(a) {
            1int
        } else {
            0int
        },
    decreases s.len(),
{
    if i == s.len() - 1 {
        assert(s.update(i, a).drop_last() =~= s.drop_last());
    } else {
        assert(s.update(i, a).drop_last() =~= s.drop_last().update(i, a));
        lemma_count_update(s.drop_last(), i, a, f);
    }
}

/// Counts agree where the predicates agree item by item.
pub proof fn lemma_count_same<A, B>(
    s: Seq<A>,
    t: Seq<B>,
    f: spec_fn(A) -> bool,
    g: spec_fn(B) -> bool,
)
    requires
        s.len() == t.len(),
        forall|i: int| 0 <= i < s.len() ==> f(#[trigger] s[i]) == g(t[i]),
    ensures
        count_of(s, f) == count_of(t, g),
    decreases s.len(),
{
    if s.len() > 0 {
        assert forall|i: int| 0 <= i < s.drop_last().len() implies f(#[trigger] s.drop_last()[i])
            == g(t.drop_last()[i]) by {
            assert(s.drop_last()[i] == s[i]);
        }
        lemma_count_same(s.drop_last(), t.drop_last(), f, g);
        assert(f(s[s.len() - 1]) == g(t[t.len() - 1]));
    }
}

/// A positive count has a witness.
pub proof fn lemma_count_witness<A>(s: Seq<A>, f: spec_fn(A) -> bool) -> (i: int)
    requires
        count_of(s, f) > 0,
    ensures
        0 <= i < s.len(),
        f(s[i]),
    decreases s.len(),
{
    if f(s.last()) {
        s.len() - 1
    } else {
        lemma_count_witness(s.drop_last(), f)
    }
}

/// One witness makes the count positive.
pub proof fn lemma_count_positive<A>(s: Seq<A>, i: int, f: spec_fn(A) -> bool)
    requires
        0 <= i < s.len(),
        f(s[i]),
    ensures
        count_of(s, f) >= 1,
    decreases s.len(),
{
    lemma_count_bounds(s.drop_last(), f);
    if i < s.len() - 1 {
        lemma_count_positive(s.drop_last(), i, f);
    }
}

/// Two witnesses make the count at least two.
pub proof fn lemma_count_two<A>(s: Seq<A>, i: int, j: int, f: spec_fn(A) -> bool)
    requires
        0 <= i < j < s.len(),
        f(s[i]),
        f(s[j]),
    ensures
        count_of(s, f) >= 2,
    decreases s.len(),
{
    if j < s.len() - 1 {
        lemma_count_two(s.drop_last(), i, j, f);
    } else {
        lemma_count_positive(s.drop_last(), i, f);
    }
}

/// What `first_index` finds.
pub proof fn lemma_first_index<A>(s: Seq<A>, f: spec_fn(A) -> bool)
    ensures
        0 <= first_index(s, f) <= s.len(),
        first_index(s, f) < s.len() ==> f(s[first_index(s, f)]),
        forall|j: int| 0 <= j < first_index(s, f) ==> !f(#[trigger] s[j]),
    decreases s.len(),
{
    if s.len() > 0 {
        lemma_first_index(s.drop_last(), f);
        let k = first_index(s.drop_last(), f);
        assert(k < s.len() - 1 ==> s.drop_last()[k] == s[k]);
        assert forall|j: int| 0 <= j < first_index(s, f) implies !f(#[trigger] s[j]) by {
            if j < s.len() - 1 {
                assert(s.drop_last()[j] == s[j]);
            }
        }
    }
}

/// The least index that satisfies `f` is the one that `first_index` gives.
pub proof fn lemma_first_index_is<A>(s: Seq<A>, i: int, f: spec_fn(A) -> bool)
    requires
        0 <= i <= s.len(),
        i < s.len() ==> f(s[i]),
        forall|j: int| 0 <= j < i ==> !f(#[trigger] s[j]),
    ensures
        first_index(s, f) == i,
{
    lemma_first_index(s, f);
    let k = first_index(s, f);
    if k < i {
        assert(!f(s[k]));
    }
    if i < k {
        assert(!f(s[i]));
    }
}

pub proof fn lemma_pick_take<A, B>(
    s: Seq<A>,
    i: int,
    keep: spec_fn(A) -> bool,
    f: spec_fn(A) -> B,
)
    requires
        0 <= i < s.len(),
    ensures
        pick(s.take(i + 1), keep, f) == (if keep(s[i]) {
            pick(s.take(i), keep, f).push(f(s[i]))
        } else {
            pick(s.take(i), keep, f)
        }),
{
    assert(s.take(i + 1).drop_last() =~= s.take(i));
}

/// `b` is the image of a kept item of `s`.
pub open spec fn comes_from<A, B>(
    s: Seq<A>,
    keep: spec_fn(A) -> bool,
    f: spec_fn(A) -> B,
    b: B,
) -> bool {
    exists|i: int| 0 <= i < s.len() && keep(#[trigger] s[i]) && f(s[i]) == b
}

/// Every picked item comes from an item that was kept, and there are as many as were kept.
pub proof fn lemma_pick_from<A, B>(s: Seq<A>, keep: spec_fn(A) -> bool, f: spec_fn(A) -> B)
    ensures
        pick(s, keep, f).len() == count_of(s, keep),
        forall|k: int|
            0 <= k < pick(s, keep, f).len() ==> comes_from(
                s,
                keep,
                f,
                #[trigger] pick(s, keep, f)[k],
            ),
    decreases s.len(),
{
    if s.len() > 0 {
        lemma_pick_from(s.drop_last(), keep, f);
        let rest = pick(s.drop_last(), keep, f);
        assert forall|k: int| 0 <= k < pick(s, keep, f).len() implies comes_from(
            s,
            keep,
            f,
            #[trigger] pick(s, keep, f)[k],
        ) by {
            if k < rest.len() {
                assert(comes_from(s.drop_last(), keep, f, rest[k]));
                let i = choose|i: int|
                    0 <= i < s.drop_last().len() && keep(#[trigger] s.drop_last()[i]) && f(
                        s.drop_last()[i],
                    ) == rest[k];
                assert(s[i] == s.drop_last()[i]);
            } else {
                assert(keep(s[s.len() - 1]));
            }
        }
    }
}

/// Every kept item is picked.
pub proof fn lemma_pick_has<A, B>(
    s: Seq<A>,
    i: int,
    keep: spec_fn(A) -> bool,
    f: spec_fn(A) -> B,
)
    requires
        0 <= i < s.len(),
        keep(s[i]),
    ensures
        pick(s, keep, f).contains(f(s[i])),
    decreases s.len(),
{
    let all = pick(s, keep, f);
    if i == s.len() - 1 {
        assert(all[all.len() - 1] == f(s[i]));
    } else {
        lemma_pick_has(s.drop_last(), i, keep, f);
        let rest = pick(s.drop_last(), keep, f);
        let k = choose|k: int| 0 <= k < rest.len() && rest[k] == f(s.drop_last()[i]);
        assert(all[k] == f(s[i]));
    }
}

/// Picking by a mapping that tells items apart gives distinct values.
pub proof fn lemma_pick_distinct<A, B>(s: Seq<A>, keep: spec_fn(A) -> bool, f: spec_fn(A) -> B)
    requires
        forall|i: int, j: int|
            #![trigger s[i], s[j]]
            0 <= i < j < s.len() ==> f(s[i]) != f(s[j]),
    ensures
        distinct(pick(s, keep, f)),
    decreases s.len(),
{
    if s.len() > 0 {
        let t = s.drop_last();
        assert forall|i: int, j: int| #![trigger t[i], t[j]] 0 <= i < j < t.len() implies f(t[i])
            != f(t[j]) by {
            assert(t[i] == s[i] && t[j] == s[j]);
        }
        lemma_pick_distinct(t, keep, f);
        lemma_pick_from(t, keep, f);
        let rest = pick(t, keep, f);
        let all = pick(s, keep, f);
        assert forall|i: int, j: int| #![trigger all[i], all[j]] 0 <= i < j < all.len(
        ) implies all[i]
            != all[j] by {
            if j < rest.len() {
                assert(rest[i] != rest[j]);
            } else {
                assert(all[i] == rest[i]);
                assert(comes_from(t, keep, f, rest[i]));
                let k = choose|k: int| 0 <= k < t.len() && keep(#[trigger] t[k]) && f(t[k])
                    == rest[i];
                assert(s[k] == t[k]);
                assert(f(s[k]) != f(s[s.len() - 1]));
            }
        }
    }
}


pub proof fn lemma_count_insert<A>(s: Seq<A>, i: int, x: A, f: spec_fn(A) -> bool)
    requires
        0 <= i <= s.len(),
    ensures
        count_of(s.insert(i, x), f) == count_of(s, f) + if f(x) {
            1int
        } else {
            0int
        },
    decreases s.len(),
{
    let t = s.insert(i, x);
    if i == s.len() {
        assert(t.drop_last() =~= s);
    } else {
        assert(t.drop_last() =~= s.drop_last().insert(i, x));
        assert(t.last() == s.last());
        lemma_count_insert(s.drop_last(), i, x, f);
    }
}

/// Arranging changes neither the length nor what is counted.
pub proof fn lemma_arranged_count<A>(
    s: Seq<A>,
    before: spec_fn(A, A) -> bool,
    f: spec_fn(A) -> bool,
)
    ensures
        arranged(s, before).len() == s.len(),
        count_of(arranged(s, before), f) == count_of(s, f),
    decreases s.len(),
{
    if s.len() > 0 {
        let rest = arranged(s.drop_last(), before);
        lemma_arranged_count(s.drop_last(), before, f);
        lemma_first_index(rest, after_item(s.last(), before));
        lemma_count_insert(
            rest,
            first_index(rest, after_item(s.last(), before)),
            s.last(),
            f,
        );
    }
}

/// Arranging keeps exactly the items there were.
pub proof fn lemma_arranged_contains<A>(s: Seq<A>, before: spec_fn(A, A) -> bool, a: A)
    ensures
        arranged(s, before).contains(a) <==> s.contains(a),
{
    let same = |y: A| y == a;
    let t = arranged(s, before);
    lemma_arranged_count(s, before, same);
    if t.contains(a) {
        let k = choose|k: int| 0 <= k < t.len() && t[k] == a;
        lemma_count_positive(t, k, same);
        let i = lemma_count_witness(s, same);
        assert(s[i] == a);
    }
    if s.contains(a) {
        let k = choose|k: int| 0 <= k < s.len() && s[k] == a;
        lemma_count_positive(s, k, same);
        let i = lemma_count_witness(t, same);
        assert(t[i] == a);
    }
}

/// Arranging keeps items apart that `f` tells apart.
pub proof fn lemma_arranged_distinct<A, B>(
    s: Seq<A>,
    before: spec_fn(A, A) -> bool,
    f: spec_fn(A) -> B,
)
    requires
        forall|i: int, j: int|
            #![trigger s[i], s[j]]
            0 <= i < j < s.len() ==> f(s[i]) != f(s[j]),
    ensures
        forall|i: int, j: int|
            #![trigger arranged(s, before)[i], arranged(s, before)[j]]
            0 <= i < j < s.len() ==> f(arranged(s, before)[i]) != f(arranged(s, before)[j]),
{
    let t = arranged(s, before);
    lemma_arranged_count(s, before, |y: A| true);
    assert forall|i: int, j: int| #![trigger t[i], t[j]] 0 <= i < j < s.len() implies f(t[i]) != f(
        t[j],
    ) by {
        if f(t[i]) == f(t[j]) {
            let same = |y: A| f(y) == f(t[i]);
            lemma_arranged_count(s, before, same);
            lemma_count_two(t, i, j, same);
            lemma_count_at_most_one(s, same, f, f(t[i]));
        }
    }
}

/// Where `f` tells items apart, at most one item has a given image.
pub proof fn lemma_count_at_most_one<A, B>(
    s: Seq<A>,
    same: spec_fn(A) -> bool,
    f: spec_fn(A) -> B,
    b: B,
)
    requires
        forall|i: int, j: int|
            #![trigger s[i], s[j]]
            0 <= i < j < s.len() ==> f(s[i]) != f(s[j]),
        forall|a: A| #[trigger] same(a) <==> f(a) == b,
    ensures
        count_of(s, same) <= 1,
    decreases s.len(),
{
    if s.len() > 0 {
        let t = s.drop_last();
        assert forall|i: int, j: int| #![trigger t[i], t[j]] 0 <= i < j < t.len() implies f(t[i])
            != f(t[j]) by {
            assert(t[i] == s[i] && t[j] == s[j]);
        }
        lemma_count_at_most_one(t, same, f, b);
        if same(s.last()) && count_of(t, same) > 0 {
            let i = lemma_count_witness(t, same);
            assert(t[i] == s[i]);
            assert(f(s[i]) != f(s[s.len() - 1]));
        }
    }
}

/// Arranging by an order puts the items in that order.
pub proof fn lemma_arranged_in_order<A>(s: Seq<A>, before: spec_fn(A, A) -> bool)
    requires
        ranks(before),
    ensures
        in_order(arranged(s, before), before),
    decreases s.len(),
{
    if s.len() > 0 {
        let rest = arranged(s.drop_last(), before);
        let x = s.last();
        let p = first_index(rest, after_item(x, before));
        lemma_arranged_in_order(s.drop_last(), before);
        lemma_first_index(rest, after_item(x, before));
        lemma_after_first(rest, x, before);
        let t = arranged(s, before);
        assert forall|i: int, j: int| #![trigger t[i], t[j]] 0 <= i < j < t.len() implies !before(
            t[j],
            t[i],
        ) by {
            if j < p {
                assert(!before(rest[j], rest[i]));
            } else if j == p {
                assert(!after_item(x, before)(rest[i]));
            } else if i < p {
                assert(!before(rest[j - 1], rest[i]));
            } else if i == p {
                assert(after_item(x, before)(rest[j - 1]));
            } else {
                assert(!before(rest[j - 1], rest[i - 1]));
            }
        }
    }
}

/// In an ordered sequence, all items from the first that must come after `x` on
/// must come after it.
pub proof fn lemma_after_first<A>(s: Seq<A>, x: A, before: spec_fn(A, A) -> bool)
    requires
        ranks(before),
        in_order(s, before),
    ensures
        forall|j: int|
            first_index(s, after_item(x, before)) <= j < s.len() ==> after_item(x, before)(
                #[trigger] s[j],
            ),
{
    lemma_first_index(s, after_item(x, before));
    let p = first_index(s, after_item(x, before));
    assert forall|j: int| p <= j < s.len() implies after_item(x, before)(#[trigger] s[j]) by {
        if j > p {
            assert(before(x, s[p]));
            assert(!before(s[j], s[p]));
            if !before(x, s[j]) {
                assert(!before(x, s[p]));
            }
        }
    }
}

/// Arranging keeps items of one standing in the order they came in.
pub proof fn lemma_arranged_stable<A, B>(
    s: Seq<A>,
    before: spec_fn(A, A) -> bool,
    keep: spec_fn(A) -> bool,
    f: spec_fn(A) -> B,
)
    requires
        ranks(before),
        forall|a: A, b: A| #[trigger] before(a, b) ==> !(keep(a) && keep(b)),
    ensures
        pick(arranged(s, before), keep, f) == pick(s, keep, f),
    decreases s.len(),
{
    if s.len() > 0 {
        let rest = arranged(s.drop_last(), before);
        let x = s.last();
        let p = first_index(rest, after_item(x, before));
        lemma_arranged_stable(s.drop_last(), before, keep, f);
        lemma_arranged_in_order(s.drop_last(), before);
        lemma_first_index(rest, after_item(x, before));
        lemma_after_first(rest, x, before);
        if keep(x) {
            assert forall|j: int| p <= j < rest.len() implies !keep(#[trigger] rest[j]) by {
                assert(after_item(x, before)(rest[j]));
            }
        }
        lemma_pick_insert(rest, p, x, keep, f);
    }
}

/// Inserting an item behind the last kept one appends its image.
pub proof fn lemma_pick_insert<A, B>(
    s: Seq<A>,
    p: int,
    x: A,
    keep: spec_fn(A) -> bool,
    f: spec_fn(A) -> B,
)
    requires
        0 <= p <= s.len(),
        keep(x) ==> forall|j: int| p <= j < s.len() ==> !keep(#[trigger] s[j]),
    ensures
        pick(s.insert(p, x), keep, f) == (if keep(x) {
            pick(s, keep, f).push(f(x))
        } else {
            pick(s, keep, f)
        }),
    decreases s.len(),
{
    let t = s.insert(p, x);
    if p == s.len() {
        assert(t.drop_last() =~= s);
    } else {
        assert(t.drop_last() =~= s.drop_last().insert(p, x));
        assert(t.last() == s.last());
        if keep(x) {
            assert(!keep(s[s.len() - 1]));
            assert forall|j: int| p <= j < s.drop_last().len() implies !keep(
                #[trigger] s.drop_last()[j],
            ) by {
                assert(s.drop_last()[j] == s[j]);
            }
        }
        lemma_pick_insert(s.drop_last(), p, x, keep, f);
    }
}


/// Searches agree where the tests agree item by item.
pub proof fn lemma_first_index_same<A, B>(
    s: Seq<A>,
    t: Seq<B>,
    f: spec_fn(A) -> bool,
    g: spec_fn(B) -> bool,
)
    requires
        s.len() == t.len(),
        forall|i: int| 0 <= i < s.len() ==> f(#[trigger] s[i]) == g(t[i]),
    ensures
        first_index(s, f) == first_index(t, g),
{
    lemma_first_index(t, g);
    let k = first_index(t, g);
    assert forall|j: int| 0 <= j < k implies !f(#[trigger] s[j]) by {
        assert(!g(t[j]));
    }
    lemma_first_index_is(s, k, f);
}

/// A sum whose terms are no larger is no larger.
pub proof fn lemma_sum_at_most<A>(s: Seq<A>, f: spec_fn(A) -> int, g: spec_fn(A) -> int)
    requires
        forall|i: int| 0 <= i < s.len() ==> f(#[trigger] s[i]) <= g(s[i]),
    ensures
        sum_of(s, f) <= sum_of(s, g),
    decreases s.len(),
{
    if s.len() > 0 {
        assert forall|i: int| 0 <= i < s.drop_last().len() implies f(#[trigger] s.drop_last()[i])
            <= g(s.drop_last()[i]) by {
            assert(s.drop_last()[i] == s[i]);
        }
        lemma_sum_at_most(s.drop_last(), f, g);
        assert(f(s[s.len() - 1]) <= g(s[s.len() - 1]));
    }
}

/// What is picked sums to no more than what it is picked from.
pub proof fn lemma_pick_sum<A, B>(
    s: Seq<A>,
    keep: spec_fn(A) -> bool,
    f: spec_fn(A) -> B,
    g: spec_fn(B) -> int,
    h: spec_fn(A) -> int,
)
    requires
        forall|i: int|
            0 <= i < s.len() ==> h(#[trigger] s[i]) >= 0 && g(f(s[i])) == h(s[i]),
    ensures
        0 <= sum_of(pick(s, keep, f), g) <= sum_of(s, h),
    decreases s.len(),
{
    if s.len() > 0 {
        let t = s.drop_last();
        assert forall|i: int| 0 <= i < t.len() implies h(#[trigger] t[i]) >= 0 && g(f(t[i])) == h(
            t[i],
        ) by {
            assert(t[i] == s[i]);
        }
        lemma_pick_sum(t, keep, f, g, h);
        assert(h(s[s.len() - 1]) >= 0);
        if keep(s.last()) {
            lemma_sum_push(pick(t, keep, f), f(s.last()), g);
        }
    }
}

/// A sum in which one term grows by `d` grows by `d`.
pub proof fn lemma_sum_one_more<A>(
    s: Seq<A>,
    k: int,
    d: int,
    f: spec_fn(A) -> int,
    g: spec_fn(A) -> int,
)
    requires
        0 <= k < s.len(),
        g(s[k]) == f(s[k]) + d,
        forall|i: int| 0 <= i < s.len() && i != k ==> f(#[trigger] s[i]) == g(s[i]),
    ensures
        sum_of(s, g) == sum_of(s, f) + d,
    decreases s.len(),
{
    let t = s.drop_last();
    if k == s.len() - 1 {
        assert forall|i: int| 0 <= i < t.len() implies g(#[trigger] t[i]) == f(t[i]) by {
            assert(t[i] == s[i]);
        }
        lemma_sum_same(t, t, g, f);
    } else {
        assert forall|i: int| 0 <= i < t.len() && i != k implies f(#[trigger] t[i]) == g(
            t[i],
        ) by {
            assert(t[i] == s[i]);
        }
        assert(t[k] == s[k]);
        lemma_sum_one_more(t, k, d, f, g);
        assert(f(s[s.len() - 1]) == g(s[s.len() - 1]));
    }
}


pub proof fn lemma_count_concat<A>(s: Seq<A>, t: Seq<A>, f: spec_fn(A) -> bool)
    ensures
        count_of(s + t, f) == count_of(s, f) + count_of(t, f),
    decreases t.len(),
{
    if t.len() == 0 {
        assert(s + t =~= s);
    } else {
        assert((s + t).drop_last() =~= s + t.drop_last());
        lemma_count_concat(s, t.drop_last(), f);
    }
}


/// What satisfies one of two tests that exclude one another is counted by either.
pub proof fn lemma_count_split<A>(
    s: Seq<A>,
    both: spec_fn(A) -> bool,
    f: spec_fn(A) -> bool,
    g: spec_fn(A) -> bool,
)
    requires
        forall|a: A| #[trigger] both(a) == (f(a) || g(a)),
        forall|a: A| !(#[trigger] f(a) && g(a)),
    ensures
        count_of(s, both) == count_of(s, f) + count_of(s, g),
    decreases s.len(),
{
    if s.len() > 0 {
        lemma_count_split(s.drop_last(), both, f, g);
        assert(both(s.last()) == (f(s.last()) || g(s.last())));
        assert(!(f(s.last()) && g(s.last())));
    }
}

/// What a sequence holds can be counted.
pub proof fn lemma_to_set_finite<A>(s: Seq<A>)
    ensures
        s.to_set().finite(),
    decreases s.len(),
{
    if s.len() == 0 {
        assert(s.to_set() =~= Set::<A>::empty());
    } else {
        lemma_to_set_finite(s.drop_last());
        assert(s.to_set() =~= s.drop_last().to_set().insert(s.last())) by {
            assert forall|x: A| s.to_set().contains(x) implies s.drop_last().to_set().insert(
                s.last(),
            ).contains(x) by {
                let k = choose|k: int| 0 <= k < s.len() && s[k] == x;
                if k < s.len() - 1 {
                    assert(s.drop_last()[k] == x);
                }
            }
            assert forall|x: A| s.drop_last().to_set().contains(x) implies s.to_set().contains(
                x,
            ) by {
                let k = choose|k: int| 0 <= k < s.drop_last().len() && s.drop_last()[k] == x;
                assert(s[k] == x);
            }
            assert(s[s.len() - 1] == s.last());
        }
    }
}

/// Two items that pass, where two do.
pub proof fn lemma_count_pair<A>(s: Seq<A>, f: spec_fn(A) -> bool) -> (r: (int, int))
    requires
        count_of(s, f) >= 2,
    ensures
        0 <= r.0 < r.1 < s.len(),
        f(s[r.0]),
        f(s[r.1]),
    decreases s.len(),
{
    if f(s.last()) {
        let i = lemma_count_witness(s.drop_last(), f);
        assert(s.drop_last()[i] == s[i]);
        (i, s.len() - 1)
    } else {
        let r = lemma_count_pair(s.drop_last(), f);
        assert(s.drop_last()[r.0] == s[r.0] && s.drop_last()[r.1] == s[r.1]);
        r
    }
}

/// `list` tells the items of `s` at `places`: those that `keep` accepts, in
/// their order and no others, each as `f` gives it.
pub open spec fn told_at<A, B>(
    list: Seq<B>,
    s: Seq<A>,
    keep: spec_fn(A) -> bool,
    f: spec_fn(A) -> B,
    places: Seq<int>,
) -> bool {
    &&& places.len() == list.len()
    &&& forall|i: int|
        0 <= i < places.len() ==> 0 <= #[trigger] places[i] < s.len() && keep(s[places[i]])
            && list[i] == f(s[places[i]])
    &&& forall|i: int, j: int|
        #![trigger places[i], places[j]]
        0 <= i < j < places.len() ==> places[i] < places[j]
    &&& forall|k: int| 0 <= k < s.len() && keep(#[trigger] s[k]) ==> places.contains(k)
}

/// `list` tells the items of `s` that `keep` accepts, in their order and no
/// others, each as `f` gives it.
pub open spec fn is_told<A, B>(
    list: Seq<B>,
    s: Seq<A>,
    keep: spec_fn(A) -> bool,
    f: spec_fn(A) -> B,
) -> bool {
    exists|places: Seq<int>| #[trigger] told_at(list, s, keep, f, places)
}

/// What is picked from a sequence is told in order.
pub proof fn lemma_pick_told<A, B>(
    s: Seq<A>,
    keep: spec_fn(A) -> bool,
    f: spec_fn(A) -> B,
) -> (places: Seq<int>)
    ensures
        told_at(pick(s, keep, f), s, keep, f, places),
        is_told(pick(s, keep, f), s, keep, f),
    decreases s.len(),
{
    if s.len() == 0 {
        let places = Seq::<int>::empty();
        assert(told_at(pick(s, keep, f), s, keep, f, places));
        places
    } else {
        let t = s.drop_last();
        let before = lemma_pick_told(t, keep, f);
        let last = s.len() - 1;
        let places = if keep(s[last]) {
            before.push(last)
        } else {
            before
        };
        assert forall|i: int| 0 <= i < places.len() implies 0 <= #[trigger] places[i] < s.len()
            && keep(s[places[i]]) && pick(s, keep, f)[i] == f(s[places[i]]) by {
            if i < before.len() {
                assert(before[i] == places[i]);
                assert(t[before[i]] == s[before[i]]);
            }
        }
        assert forall|i: int, j: int|
            #![trigger places[i], places[j]]
            0 <= i < j < places.len() implies places[i] < places[j] by {
            assert(before[i] == places[i]);
            if j < before.len() {
                assert(before[j] == places[j]);
            }
        }
        assert forall|k: int| 0 <= k < s.len() && keep(#[trigger] s[k]) implies places.contains(
            k,
        ) by {
            if k < last {
                assert(t[k] == s[k]);
                assert(before.contains(k));
                let i = choose|i: int| 0 <= i < before.len() && before[i] == k;
                assert(places[i] == k);
            } else {
                assert(places[places.len() - 1] == k);
            }
        }
        assert(told_at(pick(s, keep, f), s, keep, f, places));
        places
    }
}

/// `t` holds the items of `s` at `places`: every item once, no item before one
/// that must come before it, and level items in their order in `s`.
pub open spec fn sorted_at<A>(
    t: Seq<A>,
    s: Seq<A>,
    before: spec_fn(A, A) -> bool,
    places: Seq<int>,
) -> bool {
    &&& t.len() == s.len()
    &&& places.len() == s.len()
    &&& forall|i: int|
        0 <= i < places.len() ==> 0 <= #[trigger] places[i] < s.len() && t[i] == s[places[i]]
    &&& forall|i: int, j: int|
        #![trigger places[i], places[j]]
        0 <= i < j < places.len() ==> places[i] != places[j] && !before(
            s[places[j]],
            s[places[i]],
        ) && (before(s[places[i]], s[places[j]]) || places[i] < places[j])
}

/// An arranged sequence is sorted, and level items keep their order.
pub proof fn lemma_arranged_places<A>(s: Seq<A>, before: spec_fn(A, A) -> bool) -> (places: Seq<
    int,
>)
    requires
        ranks(before),
    ensures
        sorted_at(arranged(s, before), s, before, places),
    decreases s.len(),
{
    if s.len() == 0 {
        Seq::empty()
    } else {
        let rest = s.drop_last();
        let x = s.last();
        let old_places = lemma_arranged_places(rest, before);
        let sorted = arranged(rest, before);
        let p = first_index(sorted, after_item(x, before));
        lemma_arranged_in_order(rest, before);
        lemma_first_index(sorted, after_item(x, before));
        lemma_after_first(sorted, x, before);
        let places = old_places.insert(p, s.len() - 1);
        let t = arranged(s, before);
        assert forall|i: int| 0 <= i < places.len() implies 0 <= #[trigger] places[i] < s.len()
            && t[i] == s[places[i]] by {
            if i < p {
                assert(places[i] == old_places[i]);
            } else if i > p {
                assert(places[i] == old_places[i - 1]);
            }
        }
        assert forall|i: int, j: int|
            #![trigger places[i], places[j]]
            0 <= i < j < places.len() implies places[i] != places[j] && !before(
            s[places[j]],
            s[places[i]],
        ) && (before(s[places[i]], s[places[j]]) || places[i] < places[j]) by {
            let a = if i < p {
                i
            } else {
                i - 1
            };
            let b = if j < p {
                j
            } else {
                j - 1
            };
            if i != p {
                assert(places[i] == old_places[a]);
                assert(sorted[a] == rest[old_places[a]]);
                assert(rest[old_places[a]] == s[places[i]]);
            }
            if j != p {
                assert(places[j] == old_places[b]);
                assert(sorted[b] == rest[old_places[b]]);
                assert(rest[old_places[b]] == s[places[j]]);
            }
            if j == p {
                assert(!after_item(x, before)(sorted[a]));
            } else if i == p {
                assert(after_item(x, before)(sorted[b]));
            }
        }
        places
    }
}

} // verus!
