//! Merging without repetition: appending to a sequence those items of
//! another that it does not hold yet. The pending queue and the vocabulary
//! of the classifier both grow this way.

use vstd::prelude::*;

verus! {

/// `base`, followed by the items of `incoming` that occur neither in `base`
/// nor earlier in `incoming`, in the order of `incoming`.
pub open spec fn merged<T>(base: Seq<T>, incoming: Seq<T>) -> Seq<T>
    decreases incoming.len(),
{
    if incoming.len() == 0 {
        base
    } else {
        let before = merged(base, incoming.drop_last());
        if before.contains(incoming.last()) {
            before
        } else {
            before.push(incoming.last())
        }
    }
}

/// The items of a sequence without repetitions, each at its first place.
pub open spec fn distinct<T>(items: Seq<T>) -> Seq<T> {
    merged(Seq::empty(), items)
}

/// Merging keeps `base` as it is, at the front.
pub proof fn lemma_merged_keeps_base<T>(base: Seq<T>, incoming: Seq<T>)
    ensures
        base.len() <= merged(base, incoming).len(),
        merged(base, incoming).take(base.len() as int) == base,
    decreases incoming.len(),
{
    if incoming.len() == 0 {
        assert(base.take(base.len() as int) =~= base);
    } else {
        lemma_merged_keeps_base(base, incoming.drop_last());
        let before = merged(base, incoming.drop_last());
        assert(before.push(incoming.last()).take(base.len() as int) =~= before.take(
            base.len() as int,
        ));
    }
}

/// After merging, an item is held exactly if `base` or `incoming` held it.
pub proof fn lemma_merged_contains<T>(base: Seq<T>, incoming: Seq<T>, x: T)
    ensures
        merged(base, incoming).contains(x) <==> base.contains(x) || incoming.contains(x),
    decreases incoming.len(),
{
    if incoming.len() > 0 {
        let init = incoming.drop_last();
        let before = merged(base, init);
        lemma_merged_contains(base, init, x);
        assert(incoming =~= init.push(incoming.last()));
        assert(incoming.contains(x) <==> init.contains(x) || x == incoming.last()) by {
            if incoming.contains(x) {
                let i = choose|i: int| 0 <= i < incoming.len() && incoming[i] == x;
                if i < init.len() {
                    assert(init[i] == x);
                }
            }
            if init.contains(x) {
                let i = choose|i: int| 0 <= i < init.len() && init[i] == x;
                assert(incoming[i] == x);
            }
            if x == incoming.last() {
                assert(incoming[incoming.len() - 1] == x);
            }
        }
        if !before.contains(incoming.last()) {
            let after = before.push(incoming.last());
            assert(after.contains(x) <==> before.contains(x) || x == incoming.last()) by {
                if after.contains(x) {
                    let i = choose|i: int| 0 <= i < after.len() && after[i] == x;
                    if i < before.len() {
                        assert(before[i] == x);
                    }
                }
                if before.contains(x) {
                    let i = choose|i: int| 0 <= i < before.len() && before[i] == x;
                    assert(after[i] == x);
                }
                if x == incoming.last() {
                    assert(after[after.len() - 1] == x);
                }
            }
        }
    }
}

/// Merging into a sequence without repetitions gives one without repetitions.
pub proof fn lemma_merged_distinct<T>(base: Seq<T>, incoming: Seq<T>)
    requires
        base.no_duplicates(),
    ensures
        merged(base, incoming).no_duplicates(),
    decreases incoming.len(),
{
    if incoming.len() > 0 {
        lemma_merged_distinct(base, incoming.drop_last());
    }
}

/// Merging two batches one after the other is merging their concatenation.
pub proof fn lemma_merged_concat<T>(base: Seq<T>, first: Seq<T>, second: Seq<T>)
    ensures
        merged(base, first + second) == merged(merged(base, first), second),
    decreases second.len(),
{
    if second.len() == 0 {
        assert(first + second =~= first);
    } else {
        lemma_merged_concat(base, first, second.drop_last());
        assert((first + second).drop_last() =~= first + second.drop_last());
        assert((first + second).last() == second.last());
    }
}

/// The set of items after merging is the union of the two sets.
pub proof fn lemma_merged_set<T>(base: Seq<T>, incoming: Seq<T>)
    ensures
        merged(base, incoming).to_set() == base.to_set().union(incoming.to_set()),
{
    assert forall|x: T|
        merged(base, incoming).to_set().contains(x) <==> base.to_set().union(
            incoming.to_set(),
        ).contains(x) by {
        lemma_merged_contains(base, incoming, x);
    }
    assert(merged(base, incoming).to_set() =~= base.to_set().union(incoming.to_set()));
}

/// The length after merging: that of `base`, and one more for each distinct
/// item of `incoming` that `base` did not hold.
pub proof fn lemma_merged_len<T>(base: Seq<T>, incoming: Seq<T>)
    requires
        base.no_duplicates(),
    ensures
        merged(base, incoming).len() == base.len() + incoming.to_set().difference(
            base.to_set(),
        ).len(),
{
    let all = merged(base, incoming);
    lemma_merged_distinct(base, incoming);
    lemma_merged_set(base, incoming);
    all.unique_seq_to_set();
    base.unique_seq_to_set();
    let b = base.to_set();
    let n = incoming.to_set().difference(b);
    vstd::seq_lib::seq_to_set_is_finite(base);
    vstd::seq_lib::seq_to_set_is_finite(incoming);
    assert(b.union(n) =~= b.union(incoming.to_set()));
    assert(b.disjoint(n));
    vstd::set_lib::lemma_set_disjoint_lens(b, n);
}

} // verus!
