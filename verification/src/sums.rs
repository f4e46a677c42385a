//! Exact sums over lists, in which the laws about numbers are stated.
use vstd::prelude::*;

verus! {

/// The sum of what `term` gives for each item of a list.
pub open spec fn sum_of<A>(list: Seq<A>, term: spec_fn(A) -> real) -> real
    decreases list.len(),
{
    if list.len() == 0 {
        0real
    } else {
        sum_of(list.drop_last(), term) + term(list.last())
    }
}

/// What `term` gives for an item, where it is wanted; otherwise zero.
pub open spec fn where_wanted<A>(wanted: spec_fn(A) -> bool, term: spec_fn(A) -> real) -> spec_fn(
    A,
) -> real {
    |item: A|
        if wanted(item) {
            term(item)
        } else {
            0real
        }
}

/// Equal terms have equal sums.
pub proof fn lemma_sum_equal<A>(list: Seq<A>, f: spec_fn(A) -> real, g: spec_fn(A) -> real)
    requires
        forall|i: int| 0 <= i < list.len() ==> f(#[trigger] list[i]) == g(list[i]),
    ensures
        sum_of(list, f) == sum_of(list, g),
    decreases list.len(),
{
    if list.len() > 0 {
        assert(list.last() == list[list.len() - 1]);
        assert forall|i: int| 0 <= i < list.drop_last().len() implies f(
            #[trigger] list.drop_last()[i],
        ) == g(list.drop_last()[i]) by {
            assert(list.drop_last()[i] == list[i]);
        }
        lemma_sum_equal(list.drop_last(), f, g);
    }
}

/// The sum of sums of terms.
pub proof fn lemma_sum_plus<A>(list: Seq<A>, f: spec_fn(A) -> real, g: spec_fn(A) -> real)
    ensures
        sum_of(list, |item: A| f(item) + g(item)) == sum_of(list, f) + sum_of(list, g),
    decreases list.len(),
{
    if list.len() > 0 {
        lemma_sum_plus(list.drop_last(), f, g);
    }
}

/// A factor may be drawn out of a sum.
pub proof fn lemma_sum_times<A>(list: Seq<A>, factor: real, f: spec_fn(A) -> real)
    ensures
        sum_of(list, |item: A| factor * f(item)) == factor * sum_of(list, f),
    decreases list.len(),
{
    if list.len() > 0 {
        lemma_sum_times(list.drop_last(), factor, f);
        let before = sum_of(list.drop_last(), f);
        let last = f(list.last());
        assert(factor * before + factor * last == factor * (before + last)) by (nonlinear_arith);
    } else {
        assert(factor * 0real == 0real) by (nonlinear_arith);
    }
}

/// The sum of equal terms.
pub proof fn lemma_sum_constant<A>(list: Seq<A>, term: real)
    ensures
        sum_of(list, |item: A| term) == (list.len() as real) * term,
    decreases list.len(),
{
    if list.len() > 0 {
        lemma_sum_constant(list.drop_last(), term);
        let few = list.drop_last().len() as real;
        assert(list.len() as real == few + 1real);
        assert((few + 1real) * term == few * term + term) by (nonlinear_arith);
    } else {
        assert((0 as real) * term == 0real) by (nonlinear_arith);
    }
}

/// Terms that are not negative have such a sum, and none of the terms exceeds it.
pub proof fn lemma_sum_bounds<A>(list: Seq<A>, f: spec_fn(A) -> real)
    requires
        forall|i: int| 0 <= i < list.len() ==> f(#[trigger] list[i]) >= 0real,
    ensures
        sum_of(list, f) >= 0real,
        forall|i: int| 0 <= i < list.len() ==> f(#[trigger] list[i]) <= sum_of(list, f),
    decreases list.len(),
{
    if list.len() > 0 {
        let before = list.drop_last();
        assert(list.last() == list[list.len() - 1]);
        assert forall|i: int| 0 <= i < before.len() implies f(#[trigger] before[i]) >= 0real by {
            assert(before[i] == list[i]);
        }
        lemma_sum_bounds(before, f);
        assert forall|i: int| 0 <= i < list.len() implies f(#[trigger] list[i]) <= sum_of(
            list,
            f,
        ) by {
            if i < before.len() {
                assert(before[i] == list[i]);
            }
        }
    }
}

/// The first terms do not add up to more than all of them.
pub proof fn lemma_sum_of_first<A>(list: Seq<A>, f: spec_fn(A) -> real, count: int)
    requires
        0 <= count <= list.len(),
        forall|i: int| 0 <= i < list.len() ==> f(#[trigger] list[i]) >= 0real,
    ensures
        0real <= sum_of(list.take(count), f) <= sum_of(list, f),
    decreases list.len(),
{
    lemma_sum_bounds(list, f);
    if count < list.len() {
        let before = list.drop_last();
        assert(list.last() == list[list.len() - 1]);
        assert forall|i: int| 0 <= i < before.len() implies f(#[trigger] before[i]) >= 0real by {
            assert(before[i] == list[i]);
        }
        lemma_sum_of_first(before, f, count);
        assert(before.take(count) =~= list.take(count));
    } else {
        assert(list.take(count) =~= list);
    }
}

/// The sum over the first items and one more.
pub proof fn lemma_sum_take<A>(list: Seq<A>, f: spec_fn(A) -> real, count: int)
    requires
        0 < count <= list.len(),
    ensures
        sum_of(list.take(count), f) == sum_of(list.take(count - 1), f) + f(list[count - 1]),
{
    assert(list.take(count).drop_last() =~= list.take(count - 1));
    assert(list.take(count).last() == list[count - 1]);
}

/// Sums over two lists may be taken in either order.
pub proof fn lemma_sum_swap<A, B>(a: Seq<A>, b: Seq<B>, f: spec_fn(A, B) -> real)
    ensures
        sum_of(a, |x: A| sum_of(b, |y: B| f(x, y))) == sum_of(b, |y: B| sum_of(a, |x: A| f(x, y))),
    decreases a.len(),
{
    if a.len() == 0 {
        lemma_sum_constant(b, 0real);
        assert((b.len() as real) * 0real == 0real) by (nonlinear_arith);
        lemma_sum_equal(b, |y: B| 0real, |y: B| sum_of(a, |x: A| f(x, y)));
    } else {
        let before = a.drop_last();
        let last = a.last();
        lemma_sum_swap(before, b, f);
        let inner = |x: A| sum_of(b, |y: B| f(x, y));
        let front = |y: B| sum_of(before, |x: A| f(x, y));
        let back = |y: B| f(last, y);
        assert(sum_of(a, inner) == sum_of(before, inner) + inner(last));
        lemma_sum_plus(b, front, back);
        lemma_sum_equal(b, |y: B| front(y) + back(y), |y: B| sum_of(a, |x: A| f(x, y)));
        lemma_sum_equal(b, |y: B| f(last, y), back);
    }
}

/// A list in which only one item counts.
pub proof fn lemma_sum_single<A>(list: Seq<A>, place: int, f: spec_fn(A) -> real)
    requires
        0 <= place < list.len(),
        forall|i: int| 0 <= i < list.len() && i != place ==> f(#[trigger] list[i]) == 0real,
    ensures
        sum_of(list, f) == f(list[place]),
    decreases list.len(),
{
    let before = list.drop_last();
    assert(list.last() == list[list.len() - 1]);
    assert forall|i: int| 0 <= i < before.len() implies #[trigger] before[i] == list[i] by {}
    if place < before.len() {
        assert(f(list[list.len() - 1]) == 0real);
        lemma_sum_single(before, place, f);
    } else {
        assert forall|i: int| 0 <= i < before.len() implies f(#[trigger] before[i]) == 0real by {
            assert(f(list[i]) == 0real);
        }
        lemma_sum_equal(before, f, |item: A| 0real);
        lemma_sum_constant(before, 0real);
        assert((before.len() as real) * 0real == 0real) by (nonlinear_arith);
    }
}

/// The sum over some of the items of a list is the sum over all of them in which the others count
/// nothing.
pub proof fn lemma_sum_sublist<A>(part: Seq<A>, all: Seq<A>, f: spec_fn(A) -> real)
    requires
        part.no_duplicates(),
        all.no_duplicates(),
        forall|item: A| #[trigger] part.contains(item) ==> all.contains(item),
    ensures
        sum_of(part, f) == sum_of(all, where_wanted(|item: A| part.contains(item), f)),
    decreases part.len(),
{
    let full = where_wanted(|item: A| part.contains(item), f);
    if part.len() == 0 {
        lemma_sum_equal(all, full, |item: A| 0real);
        lemma_sum_constant(all, 0real);
        assert((all.len() as real) * 0real == 0real) by (nonlinear_arith);
    } else {
        let before = part.drop_last();
        let last = part.last();
        assert(part.contains(last));
        assert forall|item: A| #[trigger] before.contains(item) implies all.contains(item) by {
            let i = choose|i: int| 0 <= i < before.len() && before[i] == item;
            assert(part[i] == item);
            assert(part.contains(item));
        }
        lemma_sum_sublist(before, all, f);
        let front = where_wanted(|item: A| before.contains(item), f);
        let back = where_wanted(|item: A| item == last, f);
        let place = choose|i: int| 0 <= i < all.len() && all[i] == last;
        lemma_sum_single(all, place, back);
        lemma_sum_plus(all, front, back);
        assert forall|i: int| 0 <= i < all.len() implies (|item: A| front(item) + back(item))(
            #[trigger] all[i],
        ) == full(all[i]) by {
            let item = all[i];
            if item == last {
                assert(!before.contains(item)) by {
                    if before.contains(item) {
                        let k = choose|k: int| 0 <= k < before.len() && before[k] == item;
                        assert(part[k] == part[part.len() - 1]);
                    }
                }
            } else {
                if part.contains(item) {
                    let k = choose|k: int| 0 <= k < part.len() && part[k] == item;
                    assert(before[k] == item);
                }
                if before.contains(item) {
                    let k = choose|k: int| 0 <= k < before.len() && before[k] == item;
                    assert(part[k] == item);
                }
            }
        }
        lemma_sum_equal(all, |item: A| front(item) + back(item), full);
    }
}

/// The sum over one list after another.
pub proof fn lemma_sum_concat<A>(a: Seq<A>, b: Seq<A>, f: spec_fn(A) -> real)
    ensures
        sum_of(a + b, f) == sum_of(a, f) + sum_of(b, f),
    decreases b.len(),
{
    if b.len() == 0 {
        assert(a + b =~= a);
    } else {
        assert((a + b).drop_last() =~= a + b.drop_last());
        lemma_sum_concat(a, b.drop_last(), f);
    }
}

} // verus!
