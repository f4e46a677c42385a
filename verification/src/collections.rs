//! Ordered sets, ordered maps and sorting.
use std::collections::{BTreeMap, BTreeSet};
use vstd::prelude::*;
use vstd::std_specs::cmp::OrdSpec;
use vstd::std_specs::iter::IteratorSpec;

verus! {

/// Whether every element is smaller than the next.
pub open spec fn increasing(ids: Seq<u64>) -> bool {
    forall|i: int, j: int| 0 <= i < j < ids.len() ==> (#[trigger] ids[i]) < (#[trigger] ids[j])
}

/// What the order of an iteration over an ordered collection means for its elements.
proof fn lemma_increasing(all: Seq<&u64>)
    requires
        vstd::std_specs::btree::increasing_seq(all),
    ensures
        increasing(all.unref()),
{
    assert(vstd::laws_cmp::obeys_cmp::<&u64>());
    assert forall|i: int, j: int| 0 <= i < j < all.len() implies (#[trigger] all.unref()[i]) < (
    #[trigger] all.unref()[j]) by {
        assert(OrdSpec::cmp_spec(&all[i], &all[j]) is Less);
    }
}

/// The keys of a map, in ascending order.
pub fn map_keys<V>(map: &BTreeMap<u64, V>) -> (keys: Vec<u64>)
    ensures
        keys@.to_set() == map@.dom(),
        increasing(keys@),
{
    let mut keys: Vec<u64> = Vec::new();
    let source = map.keys();
    let ghost all = source.remaining();
    for key in iter: source
        invariant
            iter.seq() == all,
            keys@ == all.unref().subrange(0, iter.index()),
    {
        keys.push(*key);
        assert(all.unref().subrange(0, iter.index() + 1) =~= all.unref().subrange(
            0,
            iter.index(),
        ).push(*key));
    }
    assert(keys@ =~= all.unref());
    proof {
        lemma_increasing(all);
    }
    keys
}

/// The elements of a set, in ascending order.
pub fn set_elements(set: &BTreeSet<u64>) -> (elements: Vec<u64>)
    ensures
        elements@.to_set() == set@,
        increasing(elements@),
{
    let mut elements: Vec<u64> = Vec::new();
    let source = set.iter();
    let ghost all = source.remaining();
    for element in iter: source
        invariant
            iter.seq() == all,
            elements@ == all.unref().subrange(0, iter.index()),
    {
        elements.push(*element);
        assert(all.unref().subrange(0, iter.index() + 1) =~= all.unref().subrange(
            0,
            iter.index(),
        ).push(*element));
    }
    assert(elements@ =~= all.unref());
    proof {
        lemma_increasing(all);
    }
    elements
}

/// The distinct elements of `ids`, in ascending order.
pub fn sort_dedup(ids: &Vec<u64>) -> (sorted: Vec<u64>)
    ensures
        increasing(sorted@),
        sorted@.to_set() == ids@.to_set(),
        forall|id: u64| #[trigger] sorted@.contains(id) <==> ids@.contains(id),
        sorted@.no_duplicates(),
        sorted@.len() <= ids@.len(),
        ids@.no_duplicates() ==> sorted@.len() == ids@.len(),
{
    let mut set: BTreeSet<u64> = BTreeSet::new();
    let mut i: usize = 0;
    while i < ids.len()
        invariant
            i <= ids@.len(),
            set@ == ids@.subrange(0, i as int).to_set(),
        decreases ids@.len() - i,
    {
        set.insert(ids[i]);
        proof {
            lemma_to_set_push(ids@.subrange(0, i as int), ids@[i as int]);
            assert(ids@.subrange(0, i + 1) =~= ids@.subrange(0, i as int).push(ids@[i as int]));
        }
        i += 1;
    }
    let sorted = set_elements(&set);
    proof {
        assert(ids@.subrange(0, i as int) =~= ids@);
        assert forall|id: u64| #[trigger] sorted@.contains(id) <==> ids@.contains(id) by {
            assert(sorted@.to_set().contains(id) <==> ids@.to_set().contains(id));
        }
        lemma_increasing_distinct(sorted@);
        sorted@.unique_seq_to_set();
        ids@.lemma_cardinality_of_set();
        if ids@.no_duplicates() {
            ids@.unique_seq_to_set();
        }
    }
    sorted
}

/// The set of a longer sequence.
pub proof fn lemma_to_set_push<A>(elements: Seq<A>, element: A)
    ensures
        elements.push(element).to_set() == elements.to_set().insert(element),
{
    let longer = elements.push(element);
    assert forall|other: A| #[trigger]
        longer.to_set().contains(other) <==> elements.to_set().insert(element).contains(other) by {
        if elements.contains(other) {
            let n = choose|n: int| 0 <= n < elements.len() && elements[n] == other;
            assert(longer[n] == other);
        }
        assert(longer[elements.len() as int] == element);
        if longer.contains(other) {
            let n = choose|n: int| 0 <= n < longer.len() && longer[n] == other;
            if n < elements.len() {
                assert(elements[n] == other);
            }
        }
    }
    assert(longer.to_set() =~= elements.to_set().insert(element));
}

/// An increasing sequence repeats nothing.
pub proof fn lemma_increasing_distinct(ids: Seq<u64>)
    requires
        increasing(ids),
    ensures
        ids.no_duplicates(),
{
    assert forall|i: int, j: int| 0 <= i < ids.len() && 0 <= j < ids.len() && i != j implies ids[i]
        != ids[j] by {
        if i < j {
            assert(ids[i] < ids[j]);
        } else {
            assert(ids[j] < ids[i]);
        }
    }
}

/// There is one way to list a set in ascending order.
pub proof fn lemma_increasing_unique(a: Seq<u64>, b: Seq<u64>)
    requires
        increasing(a),
        increasing(b),
        a.to_set() == b.to_set(),
    ensures
        a == b,
    decreases a.len(),
{
    lemma_increasing_distinct(a);
    lemma_increasing_distinct(b);
    a.unique_seq_to_set();
    b.unique_seq_to_set();
    if a.len() > 0 {
        let x = a.last();
        let y = b.last();
        assert(a[a.len() - 1] == x && b[b.len() - 1] == y);
        assert(b.to_set().contains(x)) by {
            assert(a.to_set().contains(x));
        }
        assert(a.to_set().contains(y)) by {
            assert(b.to_set().contains(y));
        }
        let i = choose|i: int| 0 <= i < b.len() && b[i] == x;
        let j = choose|j: int| 0 <= j < a.len() && a[j] == y;
        if i < b.len() - 1 {
            assert(b[i] < b[b.len() - 1]);
        }
        if j < a.len() - 1 {
            assert(a[j] < a[a.len() - 1]);
        }
        assert(x == y);
        let few = a.drop_last();
        let less = b.drop_last();
        assert forall|id: u64| #[trigger] few.to_set().contains(id) <==> less.to_set().contains(
            id,
        ) by {
            if few.contains(id) {
                let n = choose|n: int| 0 <= n < few.len() && few[n] == id;
                assert(a[n] == id);
                assert(a[n] < a[a.len() - 1]);
                assert(b.to_set().contains(id)) by {
                    assert(a.to_set().contains(id));
                }
                let m = choose|m: int| 0 <= m < b.len() && b[m] == id;
                assert(less[m] == id);
            }
            if less.contains(id) {
                let n = choose|n: int| 0 <= n < less.len() && less[n] == id;
                assert(b[n] == id);
                assert(b[n] < b[b.len() - 1]);
                assert(a.to_set().contains(id)) by {
                    assert(b.to_set().contains(id));
                }
                let m = choose|m: int| 0 <= m < a.len() && a[m] == id;
                assert(few[m] == id);
            }
        }
        assert(few.to_set() =~= less.to_set());
        assert forall|i: int, j: int| 0 <= i < j < few.len() implies (#[trigger] few[i]) < (
        #[trigger] few[j]) by {
            assert(a[i] < a[j]);
        }
        assert forall|i: int, j: int| 0 <= i < j < less.len() implies (#[trigger] less[i]) < (
        #[trigger] less[j]) by {
            assert(b[i] < b[j]);
        }
        lemma_increasing_unique(few, less);
        assert(a =~= few.push(x));
        assert(b =~= less.push(y));
    } else {
        assert(a =~= b);
    }
}

/// What a longer sequence holds.
pub proof fn lemma_contains_push<A>(elements: Seq<A>, element: A, other: A)
    ensures
        elements.push(element).contains(other) <==> elements.contains(other) || other == element,
{
    let longer = elements.push(element);
    if elements.contains(other) {
        let n = choose|n: int| 0 <= n < elements.len() && elements[n] == other;
        assert(longer[n] == other);
    }
    assert(longer[elements.len() as int] == element);
    if longer.contains(other) && other != element {
        let n = choose|n: int| 0 <= n < longer.len() && longer[n] == other;
        assert(elements[n] == other);
    }
}

/// A finite set has a greatest element.
proof fn lemma_greatest(elements: Set<u64>) -> (greatest: u64)
    requires
        elements.finite(),
        elements.len() > 0,
    ensures
        elements.contains(greatest),
        forall|element: u64| #[trigger] elements.contains(element) ==> element <= greatest,
    decreases elements.len(),
{
    let one = elements.choose();
    let rest = elements.remove(one);
    if rest.len() == 0 {
        assert forall|element: u64| #[trigger] elements.contains(element) implies element <= one by {
            if element != one {
                assert(rest.contains(element));
            }
        }
        one
    } else {
        let other = lemma_greatest(rest);
        assert forall|element: u64| #[trigger] elements.contains(element) implies element <= one
            || element <= other by {
            if element != one {
                assert(rest.contains(element));
            }
        }
        if one < other {
            other
        } else {
            one
        }
    }
}

/// A finite set can be listed in ascending order.
pub proof fn lemma_can_be_listed(elements: Set<u64>) -> (list: Seq<u64>)
    requires
        elements.finite(),
    ensures
        increasing(list),
        list.to_set() == elements,
    decreases elements.len(),
{
    if elements.len() == 0 {
        let list = Seq::<u64>::empty();
        assert(list.to_set() =~= elements);
        list
    } else {
        let greatest = lemma_greatest(elements);
        let before = lemma_can_be_listed(elements.remove(greatest));
        let list = before.push(greatest);
        lemma_to_set_push(before, greatest);
        assert(list.to_set() =~= elements);
        assert forall|i: int, j: int| 0 <= i < j < list.len() implies list[i] < list[j] by {
            assert(before.contains(list[i]));
            assert(before.to_set().contains(list[i]));
        }
        list
    }
}

} // verus!
