//! Facts about the items of a list that meet a condition.

use vstd::prelude::*;

verus! {

/// Conditions that hold of the same items keep the same items.
pub proof fn lemma_filter_same<T>(items: Seq<T>, p: spec_fn(T) -> bool, q: spec_fn(T) -> bool)
    requires
        forall|i: int| 0 <= i < items.len() ==> p(#[trigger] items[i]) == q(items[i]),
    ensures
        items.filter(p) == items.filter(q),
    decreases items.len(),
{
    if items.len() == 0 {
        items.lemma_filter_len(p);
        items.lemma_filter_len(q);
        assert(items.filter(p) =~= items.filter(q));
    } else {
        let shorter = items.drop_last();
        assert forall|i: int| 0 <= i < shorter.len() implies p(#[trigger] shorter[i]) == q(
            shorter[i],
        ) by {
            assert(shorter[i] == items[i]);
        }
        lemma_filter_same(shorter, p, q);
        assert(items =~= shorter.push(items.last()));
        shorter.lemma_filter_push(items.last(), p);
        shorter.lemma_filter_push(items.last(), q);
    }
}

/// To keep what meets one condition, and of that what meets another, is to
/// keep what meets both.
pub proof fn lemma_filter_twice<T>(
    items: Seq<T>,
    p: spec_fn(T) -> bool,
    q: spec_fn(T) -> bool,
    both: spec_fn(T) -> bool,
)
    requires
        forall|i: int| 0 <= i < items.len() ==> both(#[trigger] items[i]) == (p(items[i]) && q(items[i])),
    ensures
        items.filter(p).filter(q) == items.filter(both),
    decreases items.len(),
{
    if items.len() == 0 {
        items.lemma_filter_len(p);
        items.lemma_filter_len(both);
        items.filter(p).lemma_filter_len(q);
        assert(items.filter(p).filter(q) =~= items.filter(both));
    } else {
        let shorter = items.drop_last();
        assert forall|i: int| 0 <= i < shorter.len() implies both(#[trigger] shorter[i]) == (p(
            shorter[i],
        ) && q(shorter[i])) by {
            assert(shorter[i] == items[i]);
        }
        lemma_filter_twice(shorter, p, q, both);
        assert(items =~= shorter.push(items.last()));
        shorter.lemma_filter_push(items.last(), p);
        shorter.lemma_filter_push(items.last(), both);
        if p(items.last()) {
            shorter.filter(p).lemma_filter_push(items.last(), q);
        }
    }
}

/// Where all the items meet the condition, all are kept.
pub proof fn lemma_filter_all<T>(items: Seq<T>, p: spec_fn(T) -> bool)
    requires
        forall|i: int| 0 <= i < items.len() ==> p(#[trigger] items[i]),
    ensures
        items.filter(p) == items,
    decreases items.len(),
{
    if items.len() == 0 {
        items.lemma_filter_len(p);
        assert(items.filter(p) =~= items);
    } else {
        let shorter = items.drop_last();
        assert forall|i: int| 0 <= i < shorter.len() implies p(#[trigger] shorter[i]) by {
            assert(shorter[i] == items[i]);
        }
        lemma_filter_all(shorter, p);
        assert(items =~= shorter.push(items.last()));
        shorter.lemma_filter_push(items.last(), p);
    }
}

/// Where no item meets the condition, none is kept.
pub proof fn lemma_filter_none<T>(items: Seq<T>, p: spec_fn(T) -> bool)
    requires
        forall|i: int| 0 <= i < items.len() ==> !p(#[trigger] items[i]),
    ensures
        items.filter(p) == Seq::<T>::empty(),
    decreases items.len(),
{
    if items.len() == 0 {
        items.lemma_filter_len(p);
        assert(items.filter(p) =~= Seq::<T>::empty());
    } else {
        let shorter = items.drop_last();
        assert forall|i: int| 0 <= i < shorter.len() implies !p(#[trigger] shorter[i]) by {
            assert(shorter[i] == items[i]);
        }
        lemma_filter_none(shorter, p);
        assert(items =~= shorter.push(items.last()));
        shorter.lemma_filter_push(items.last(), p);
    }
}

} // verus!
