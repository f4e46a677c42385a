//! Stable sorting by an order of one's own.
use vstd::prelude::*;

verus! {

/// An element with a strict order on its view. Elements of which neither goes before the other
/// rank equal.
pub trait SortItem: View + Sized {
    /// Whether `a` goes before `b`.
    spec fn goes_before(a: Self::V, b: Self::V) -> bool;

    /// The order is strict, and what goes before one element goes before every element that
    /// ranks after it or equal to it.
    proof fn lemma_order(a: Self::V, b: Self::V, c: Self::V)
        ensures
            !Self::goes_before(a, a),
            Self::goes_before(a, b) ==> !Self::goes_before(b, a),
            Self::goes_before(a, b) && !Self::goes_before(c, b) ==> Self::goes_before(a, c),
            Self::goes_before(a, b) && !Self::goes_before(a, c) ==> Self::goes_before(c, b),
    ;

    /// Whether this element goes before `other`.
    fn is_before(&self, other: &Self) -> (result: bool)
        ensures
            result == Self::goes_before(self@, other@),
    ;
}

/// The views of a list.
pub open spec fn views<X: View>(items: Seq<X>) -> Seq<X::V> {
    items.map_values(|item: X| item@)
}

/// The order of an element type.
pub open spec fn order_of<X: SortItem>() -> spec_fn(X::V, X::V) -> bool {
    |a: X::V, b: X::V| X::goes_before(a, b)
}

/// Where a new last element belongs in a sorted list: behind every element that it does not go
/// before.
pub open spec fn place<A>(list: Seq<A>, item: A, before: spec_fn(A, A) -> bool) -> nat
    decreases list.len(),
{
    if list.len() == 0 {
        0
    } else if before(item, list.last()) {
        place(list.drop_last(), item, before)
    } else {
        list.len()
    }
}

/// A list, sorted; elements that rank equal keep their order.
pub open spec fn sorted<A>(list: Seq<A>, before: spec_fn(A, A) -> bool) -> Seq<A>
    decreases list.len(),
{
    if list.len() == 0 {
        Seq::empty()
    } else {
        let rest = sorted(list.drop_last(), before);
        rest.insert(place(rest, list.last(), before) as int, list.last())
    }
}

/// Whether no element goes before an earlier one.
pub open spec fn in_order<A>(list: Seq<A>, before: spec_fn(A, A) -> bool) -> bool {
    forall|i: int, j: int|
        0 <= i < j < list.len() ==> !before(#[trigger] list[j], #[trigger] list[i])
}

/// The place of an element divides a sorted list.
proof fn lemma_place<X: SortItem>(list: Seq<X::V>, item: X::V)
    requires
        in_order(list, order_of::<X>()),
    ensures
        place(list, item, order_of::<X>()) <= list.len(),
        forall|i: int|
            0 <= i < place(list, item, order_of::<X>()) ==> !X::goes_before(
                item,
                #[trigger] list[i],
            ),
        forall|i: int|
            place(list, item, order_of::<X>()) <= i < list.len() ==> X::goes_before(
                item,
                #[trigger] list[i],
            ),
    decreases list.len(),
{
    let before = order_of::<X>();
    if list.len() > 0 {
        let rest = list.drop_last();
        if before(item, list.last()) {
            assert(in_order(rest, before)) by {
                assert forall|i: int, j: int| 0 <= i < j < rest.len() implies !before(
                    #[trigger] rest[j],
                    #[trigger] rest[i],
                ) by {
                    assert(!before(list[j], list[i]));
                }
            }
            lemma_place::<X>(rest, item);
            assert forall|i: int| 0 <= i < place(list, item, before) implies !X::goes_before(
                item,
                #[trigger] list[i],
            ) by {
                assert(rest[i] == list[i]);
            }
            assert forall|i: int| place(list, item, before) <= i < list.len() implies
                X::goes_before(item, #[trigger] list[i]) by {
                if i < rest.len() {
                    assert(rest[i] == list[i]);
                }
            }
        } else {
            assert forall|i: int| 0 <= i < list.len() implies !X::goes_before(
                item,
                #[trigger] list[i],
            ) by {
                if i < list.len() - 1 {
                    assert(!before(list[list.len() - 1], list[i]));
                    X::lemma_order(item, list[i], list.last());
                }
            }
        }
    }
}

/// A sorted list is in order and holds the same elements, each as often.
pub proof fn law_sorted<X: SortItem>(list: Seq<X::V>)
    ensures
        in_order(sorted(list, order_of::<X>()), order_of::<X>()),
        sorted(list, order_of::<X>()).len() == list.len(),
        sorted(list, order_of::<X>()).to_multiset() == list.to_multiset(),
    decreases list.len(),
{
    broadcast use vstd::seq_lib::group_to_multiset_ensures;

    let before = order_of::<X>();
    if list.len() > 0 {
        let rest = sorted(list.drop_last(), before);
        let item = list.last();
        law_sorted::<X>(list.drop_last());
        lemma_place::<X>(rest, item);
        let at = place(rest, item, before) as int;
        let all = sorted(list, before);
        assert forall|i: int, j: int| 0 <= i < j < all.len() implies !before(
            #[trigger] all[j],
            #[trigger] all[i],
        ) by {
            if i == at {
                assert(all[j] == rest[j - 1]);
                assert(X::goes_before(item, rest[j - 1]));
                X::lemma_order(item, rest[j - 1], item);
            } else if j == at {
                assert(all[i] == rest[i]);
            } else {
                let left = if i < at { i } else { i - 1 };
                let right = if j < at { j } else { j - 1 };
                assert(all[i] == rest[left] && all[j] == rest[right]);
            }
        }
        assert(list =~= list.drop_last().push(item));
        assert(all.to_multiset() =~= rest.to_multiset().insert(item)) by {
            vstd::seq_lib::to_multiset_insert(rest, at, item);
        }
    } else {
        assert(sorted(list, before) =~= list);
    }
}

/// What is in a sorted list is what was in the list.
pub proof fn lemma_sorted_contains<X: SortItem>(list: Seq<X::V>, item: X::V)
    ensures
        sorted(list, order_of::<X>()).contains(item) <==> list.contains(item),
{
    broadcast use vstd::seq_lib::group_to_multiset_ensures;

    law_sorted::<X>(list);
    let all = sorted(list, order_of::<X>());
    assert(all.contains(item) <==> all.to_multiset().count(item) > 0);
    assert(list.contains(item) <==> list.to_multiset().count(item) > 0);
}

/// Sorts a list.
pub fn sort_items<X: SortItem>(items: Vec<X>) -> (result: Vec<X>)
    ensures
        views(result@) == sorted(views(items@), order_of::<X>()),
        result@.len() == items@.len(),
{
    let ghost given = views(items@);
    let ghost before = order_of::<X>();
    let mut result: Vec<X> = Vec::new();
    assert(views(result@) =~= Seq::<X::V>::empty());
    assert(given.subrange(0, 0) =~= Seq::<X::V>::empty());
    for item in iter: items
        invariant
            given == views(iter.seq()),
            before == order_of::<X>(),
            result@.len() == iter.index(),
            views(result@) == sorted(given.subrange(0, iter.index()), before),
    {
        let ghost list = views(result@);
        let ghost held = result@;
        proof {
            law_sorted::<X>(given.subrange(0, iter.index()));
            lemma_place::<X>(list, item@);
        }
        let mut low: usize = 0;
        let mut high: usize = result.len();
        while low < high
            invariant
                low <= place(list, item@, before) <= high <= result@.len(),
                list == views(result@),
                before == order_of::<X>(),
                forall|i: int|
                    0 <= i < place(list, item@, before) ==> !X::goes_before(
                        item@,
                        #[trigger] list[i],
                    ),
                forall|i: int|
                    place(list, item@, before) <= i < list.len() ==> X::goes_before(
                        item@,
                        #[trigger] list[i],
                    ),
            decreases high - low,
        {
            let middle: usize = low + (high - low) / 2;
            assert(list[middle as int] == result@[middle as int]@);
            if item.is_before(&result[middle]) {
                high = middle;
            } else {
                low = middle + 1;
            }
        }
        result.insert(low, item);
        proof {
            let longer = given.subrange(0, iter.index() + 1);
            assert(longer.drop_last() =~= given.subrange(0, iter.index()));
            assert(longer.last() == item@);
            assert(views(result@) =~= list.insert(low as int, item@));
        }
    }
    assert(given.subrange(0, given.len() as int) =~= given);
    result
}

/// Whether elements that rank equal are equal.
pub open spec fn ranks_determine<A>(list: Seq<A>, before: spec_fn(A, A) -> bool) -> bool {
    forall|a: A, b: A|
        #![trigger list.contains(a), list.contains(b)]
        list.contains(a) && list.contains(b) && !before(a, b) && !before(b, a) ==> a == b
}

/// Whether every element goes before the later ones.
pub open spec fn strictly_ordered<A>(list: Seq<A>, before: spec_fn(A, A) -> bool) -> bool {
    forall|i: int, j: int|
        0 <= i < j < list.len() ==> before(#[trigger] list[i], #[trigger] list[j])
}

/// There is one way to list elements in strict order.
pub proof fn lemma_strictly_ordered_unique<X: SortItem>(a: Seq<X::V>, b: Seq<X::V>)
    requires
        strictly_ordered(a, order_of::<X>()),
        strictly_ordered(b, order_of::<X>()),
        forall|item: X::V| #[trigger] a.contains(item) <==> b.contains(item),
    ensures
        a == b,
    decreases a.len(),
{
    let before = order_of::<X>();
    if a.len() == 0 {
        if b.len() > 0 {
            assert(b.contains(b[0]));
            assert(a.contains(b[0]));
        }
        assert(a =~= b);
    } else {
        assert(a.contains(a[0]));
        assert(b.contains(a[0]));
        let j = choose|j: int| 0 <= j < b.len() && b[j] == a[0];
        assert(b.contains(b[0]));
        assert(a.contains(b[0]));
        let i = choose|i: int| 0 <= i < a.len() && a[i] == b[0];
        X::lemma_order(a[0], b[0], a[0]);
        if i > 0 {
            assert(before(a[0], a[i]));
        }
        if j > 0 {
            assert(before(b[0], b[j]));
        }
        assert(a[0] == b[0]);
        let rest = a.subrange(1, a.len() as int);
        let other = b.subrange(1, b.len() as int);
        assert forall|item: X::V| #[trigger] rest.contains(item) <==> other.contains(item) by {
            X::lemma_order(item, item, item);
            if rest.contains(item) {
                let n = choose|n: int| 0 <= n < rest.len() && rest[n] == item;
                assert(before(a[0], a[n + 1]));
                assert(a.contains(a[n + 1]));
                assert(b.contains(item));
                let m = choose|m: int| 0 <= m < b.len() && b[m] == item;
                assert(other[m - 1] == item);
            }
            if other.contains(item) {
                let n = choose|n: int| 0 <= n < other.len() && other[n] == item;
                assert(before(b[0], b[n + 1]));
                assert(b.contains(b[n + 1]));
                assert(a.contains(item));
                let m = choose|m: int| 0 <= m < a.len() && a[m] == item;
                assert(rest[m - 1] == item);
            }
        }
        lemma_strictly_ordered_unique::<X>(rest, other);
        assert(a =~= seq![a[0]] + rest);
        assert(b =~= seq![b[0]] + other);
    }
}

/// Sorts a list and keeps one of each group of equal elements.
pub fn sort_distinct<X: SortItem>(items: Vec<X>) -> (result: Vec<X>)
    requires
        ranks_determine(views(items@), order_of::<X>()),
    ensures
        strictly_ordered(views(result@), order_of::<X>()),
        forall|item: X::V| #[trigger]
            views(result@).contains(item) <==> views(items@).contains(item),
        result@.len() <= items@.len(),
{
    let ghost given = views(items@);
    let ghost before = order_of::<X>();
    let listed = sort_items(items);
    let ghost all = views(listed@);
    proof {
        law_sorted::<X>(given);
        assert forall|item: X::V| #[trigger] all.contains(item) <==> given.contains(item) by {
            lemma_sorted_contains::<X>(given, item);
        }
    }
    let mut result: Vec<X> = Vec::new();
    for item in iter: listed
        invariant
            all == views(iter.seq()),
            before == order_of::<X>(),
            in_order(all, before),
            ranks_determine(given, before),
            forall|item: X::V| #[trigger] all.contains(item) <==> given.contains(item),
            result@.len() <= iter.index(),
            strictly_ordered(views(result@), before),
            forall|n: int|
                0 <= n < result@.len() ==> all.subrange(0, iter.index()).contains(
                    (#[trigger] result@[n])@,
                ),
            forall|i: int| 0 <= i < iter.index() ==> views(result@).contains(#[trigger] all[i]),
            iter.index() > 0 ==> result@.len() > 0 && result@[result@.len() - 1]@
                == all[iter.index() - 1],
    {
        let ghost held = result@;
        let ghost at = iter.index();
        proof {
            assert(all[at] == item@);
            assert(all.contains(item@));
        }
        let repeated = if result.len() > 0 {
            !result[result.len() - 1].is_before(&item) && !item.is_before(&result[result.len() - 1])
        } else {
            false
        };
        if !repeated {
            proof {
                assert forall|i: int| 0 <= i < held.len() implies before(
                    (#[trigger] held[i])@,
                    item@,
                ) by {
                    assert(at > 0) by {
                        assert(all.subrange(0, at).contains(held[i]@));
                    }
                    let last = held[held.len() - 1]@;
                    assert(!before(all[at], all[at - 1]));
                    if i < held.len() - 1 {
                        assert(before(views(held)[i], views(held)[held.len() - 1]));
                        X::lemma_order(held[i]@, last, item@);
                    }
                }
            }
            result.push(item);
            proof {
                assert(views(result@)[held.len() as int] == item@);
                assert forall|i: int, j: int| 0 <= i < j < views(result@).len() implies before(
                    #[trigger] views(result@)[i],
                    #[trigger] views(result@)[j],
                ) by {
                    assert(views(result@)[i] == held[i]@);
                    if j < held.len() {
                        assert(before(views(held)[i], views(held)[j]));
                    }
                }
            }
        } else {
            proof {
                assert(at > 0) by {
                    assert(all.subrange(0, at).contains(held[held.len() - 1]@));
                }
                assert(all.contains(all[at - 1]));
                assert(given.contains(all[at - 1]));
                assert(given.contains(item@));
                assert(all[at - 1] == item@);
                assert(views(result@)[result@.len() - 1] == item@);
            }
        }
        proof {
            assert forall|i: int| 0 <= i < at + 1 implies views(result@).contains(
                #[trigger] all[i],
            ) by {
                if i < at {
                    assert(views(held).contains(all[i]));
                    let n = choose|n: int| 0 <= n < views(held).len() && views(held)[n] == all[i];
                    assert(views(result@)[n] == all[i]);
                }
            }
            assert forall|n: int| 0 <= n < result@.len() implies all.subrange(0, at + 1).contains(
                (#[trigger] result@[n])@,
            ) by {
                if n < held.len() {
                    assert(all.subrange(0, at).contains(held[n]@));
                    let k = choose|k: int| 0 <= k < at && all.subrange(0, at)[k] == held[n]@;
                    assert(all.subrange(0, at + 1)[k] == result@[n]@);
                } else {
                    assert(all.subrange(0, at + 1)[at] == result@[n]@);
                }
            }
        }
    }
    proof {
        assert(all.subrange(0, all.len() as int) =~= all);
        assert forall|item: X::V| #[trigger] views(result@).contains(item) <==> given.contains(
            item,
        ) by {
            if views(result@).contains(item) {
                let n = choose|n: int|
                    0 <= n < views(result@).len() && views(result@)[n] == item;
                assert(all.contains(result@[n]@));
            }
            if all.contains(item) {
                let n = choose|n: int| 0 <= n < all.len() && all[n] == item;
                assert(views(result@).contains(all[n]));
            }
        }
    }
    result
}

/// Whether a list holds the best `limit` of some elements, best first. With fewer elements it
/// holds them all.
pub open spec fn is_best<A>(
    given: Set<A>,
    before: spec_fn(A, A) -> bool,
    limit: nat,
    list: Seq<A>,
) -> bool {
    &&& strictly_ordered(list, before)
    &&& list.len() <= limit
    &&& forall|i: int| 0 <= i < list.len() ==> given.contains(#[trigger] list[i])
    &&& forall|item: A, i: int|
        given.contains(item) && !list.contains(item) && 0 <= i < list.len() ==> #[trigger] before(
            list[i],
            item,
        )
    &&& forall|item: A| #[trigger]
        given.contains(item) && !list.contains(item) ==> list.len() == limit
}

/// Takes one more element into account in a list of the best.
pub fn keep_best<X: SortItem>(
    list: &mut Vec<X>,
    item: X,
    limit: usize,
    Ghost(given): Ghost<Set<X::V>>,
)
    requires
        is_best(given, order_of::<X>(), limit as nat, views(old(list)@)),
        forall|other: X::V| #[trigger]
            given.contains(other) ==> X::goes_before(other, item@) || X::goes_before(item@, other),
    ensures
        is_best(given.insert(item@), order_of::<X>(), limit as nat, views(final(list)@)),
{
    let ghost before = order_of::<X>();
    let ghost held = views(list@);
    let mut at: usize = list.len();
    while at > 0 && item.is_before(&list[at - 1])
        invariant
            at <= list@.len(),
            views(list@) == held,
            forall|i: int| at <= i < held.len() ==> X::goes_before(item@, #[trigger] held[i]),
        decreases at,
    {
        at -= 1;
        assert(held[at as int] == list@[at as int]@);
    }
    proof {
        assert forall|i: int| 0 <= i < at implies X::goes_before(#[trigger] held[i], item@) by {
            assert(given.contains(held[at - 1]));
            assert(held[at - 1] == list@[at - 1]@);
            if i < at - 1 {
                assert(before(held[i], held[at - 1]));
                X::lemma_order(held[i], held[at - 1], item@);
            }
        }
    }
    if at == limit {
        proof {
            if at < held.len() {
                assert(held.len() <= limit);
            }
            lemma_best_kept::<X>(given, limit as nat, held, item@);
        }
        return;
    }
    let ghost whole = held.insert(at as int, item@);
    list.insert(at, item);
    assert(views(list@) =~= whole);
    if list.len() > limit {
        list.truncate(limit);
        assert(views(list@) =~= whole.take(limit as int));
    }
    proof {
        lemma_best_inserted::<X>(given, limit as nat, held, item@, at as int);
        if whole.len() <= limit {
            assert(whole.take(whole.len() as int) =~= whole);
        }
    }
}

/// An element that ranks after a full list changes nothing.
proof fn lemma_best_kept<X: SortItem>(given: Set<X::V>, limit: nat, held: Seq<X::V>, item: X::V)
    requires
        is_best(given, order_of::<X>(), limit, held),
        held.len() == limit,
        forall|i: int| 0 <= i < held.len() ==> X::goes_before(#[trigger] held[i], item),
    ensures
        is_best(given.insert(item), order_of::<X>(), limit, held),
{
    let before = order_of::<X>();
    let more = given.insert(item);
    assert forall|other: X::V, i: int|
        more.contains(other) && !held.contains(other) && 0 <= i < held.len() implies
        #[trigger] before(held[i], other) by {
        if other == item {
            assert(X::goes_before(held[i], item));
        }
    }
}

/// A list of the best with one more element put where it belongs, cut to the limit.
proof fn lemma_best_inserted<X: SortItem>(
    given: Set<X::V>,
    limit: nat,
    held: Seq<X::V>,
    item: X::V,
    at: int,
)
    requires
        is_best(given, order_of::<X>(), limit, held),
        0 <= at <= held.len(),
        at < limit,
        forall|i: int| 0 <= i < at ==> X::goes_before(#[trigger] held[i], item),
        forall|i: int| at <= i < held.len() ==> X::goes_before(item, #[trigger] held[i]),
    ensures
        ({
            let whole = held.insert(at, item);
            let count = if whole.len() <= limit {
                whole.len() as int
            } else {
                limit as int
            };
            is_best(given.insert(item), order_of::<X>(), limit, whole.take(count))
        }),
{
    let before = order_of::<X>();
    let more = given.insert(item);
    let whole = held.insert(at, item);
    let count = if whole.len() <= limit {
        whole.len() as int
    } else {
        limit as int
    };
    let list = whole.take(count);
    assert(strictly_ordered(whole, before)) by {
        assert forall|i: int, j: int| 0 <= i < j < whole.len() implies before(
            #[trigger] whole[i],
            #[trigger] whole[j],
        ) by {
            let left = if i < at {
                i
            } else {
                i - 1
            };
            let right = if j < at {
                j
            } else {
                j - 1
            };
            if i == at {
                assert(X::goes_before(item, held[right]));
            } else if j == at {
                assert(X::goes_before(held[left], item));
            } else {
                assert(before(held[left], held[right]));
            }
        }
    }
    assert forall|i: int, j: int| 0 <= i < j < list.len() implies before(
        #[trigger] list[i],
        #[trigger] list[j],
    ) by {
        assert(before(whole[i], whole[j]));
    }
    assert forall|i: int| 0 <= i < list.len() implies more.contains(#[trigger] list[i]) by {
        if i < at {
            assert(given.contains(held[i]));
        } else if i > at {
            assert(given.contains(held[i - 1]));
        }
    }
    assert(list[at] == item);
    assert forall|other: X::V| more.contains(other) && !(#[trigger] list.contains(other)) implies
        list.len() == limit && forall|i: int| 0 <= i < list.len() ==> before(
        #[trigger] list[i],
        other,
    ) by {
        assert(other != item);
        if held.contains(other) {
            let n = choose|n: int| 0 <= n < held.len() && held[n] == other;
            let m = if n < at {
                n
            } else {
                n + 1
            };
            assert(whole[m] == other);
            if m < list.len() {
                assert(list[m] == other);
            }
            assert forall|i: int| 0 <= i < list.len() implies before(#[trigger] list[i], other) by {
                assert(before(whole[i], whole[m]));
            }
        } else {
            assert forall|i: int| 0 <= i < list.len() implies before(#[trigger] list[i], other) by {
                if i < at {
                    assert(before(held[i], other));
                } else if i > at {
                    assert(before(held[i - 1], other));
                } else {
                    assert(before(held[held.len() - 1], other));
                    assert(X::goes_before(item, held[held.len() - 1]));
                    X::lemma_order(held[held.len() - 1], other, item);
                    X::lemma_order(item, held[held.len() - 1], other);
                }
            }
        }
    }
}

} // verus!
