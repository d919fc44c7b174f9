//! Counting numbers that are all different.
use vstd::prelude::*;
use vstd::set_lib::{lemma_int_range, lemma_len_subset, set_int_range};

verus! {

/// Different numbers below `n` are at most `n` many.
pub proof fn lemma_arrivals_at_most(arrivals: Seq<usize>, n: nat)
    requires
        arrivals.no_duplicates(),
        forall|i: int| 0 <= i < arrivals.len() ==> (#[trigger] arrivals[i] as int) < n,
    ensures
        arrivals.len() <= n,
{
    lemma_as_set(arrivals, n);
    lemma_len_subset(as_set(arrivals), set_int_range(0, n as int));
}

/// If as many different numbers below `n` have arrived as there are, then each of them has.
pub proof fn lemma_all_arrived(arrivals: Seq<usize>, n: nat, order: usize)
    requires
        arrivals.no_duplicates(),
        forall|i: int| 0 <= i < arrivals.len() ==> (#[trigger] arrivals[i] as int) < n,
        arrivals.len() == n,
        (order as int) < n,
    ensures
        arrivals.contains(order),
{
    if !arrivals.contains(order) {
        let below = set_int_range(0, n as int);
        lemma_as_set(arrivals, n);
        assert(as_set(arrivals).subset_of(below.remove(order as int)));
        lemma_len_subset(as_set(arrivals), below.remove(order as int));
    }
}

/// If fewer different numbers below `n` have arrived than there are, then one of them has not.
pub proof fn lemma_missing_arrival(arrivals: Seq<usize>, n: nat)
    requires
        arrivals.no_duplicates(),
        forall|i: int| 0 <= i < arrivals.len() ==> (#[trigger] arrivals[i] as int) < n,
        arrivals.len() < n <= usize::MAX,
    ensures
        exists|order: usize| (order as int) < n && !#[trigger] arrivals.contains(order),
{
    if forall|order: usize| (order as int) < n ==> #[trigger] arrivals.contains(order) {
        let below = set_int_range(0, n as int);
        lemma_as_set(arrivals, n);
        assert forall|v: int| #[trigger] below.contains(v) implies as_set(arrivals).contains(v) by {
            assert(arrivals.contains(v as usize));
        }
        lemma_len_subset(below, as_set(arrivals));
    }
}

spec fn as_set(arrivals: Seq<usize>) -> Set<int> {
    arrivals.map_values(|order: usize| order as int).to_set()
}

proof fn lemma_as_set(arrivals: Seq<usize>, n: nat)
    requires
        arrivals.no_duplicates(),
        forall|i: int| 0 <= i < arrivals.len() ==> (#[trigger] arrivals[i] as int) < n,
    ensures
        as_set(arrivals).finite(),
        as_set(arrivals).len() == arrivals.len(),
        set_int_range(0, n as int).finite(),
        set_int_range(0, n as int).len() == n,
        as_set(arrivals).subset_of(set_int_range(0, n as int)),
        forall|v: int| #[trigger]
            as_set(arrivals).contains(v) <==> 0 <= v <= usize::MAX && arrivals.contains(v as usize),
{
    let numbers = arrivals.map_values(|order: usize| order as int);
    assert(numbers.no_duplicates());
    numbers.unique_seq_to_set();
    lemma_int_range(0, n as int);
    assert forall|v: int| #[trigger] as_set(arrivals).contains(v) <==> 0 <= v <= usize::MAX
        && arrivals.contains(v as usize) by {
        if as_set(arrivals).contains(v) {
            let k = choose|k: int| 0 <= k < numbers.len() && numbers[k] == v;
            assert(arrivals[k] == v as usize);
        }
        if 0 <= v <= usize::MAX && arrivals.contains(v as usize) {
            let k = choose|k: int| 0 <= k < arrivals.len() && arrivals[k] == v as usize;
            assert(numbers[k] == v);
        }
    }
    assert forall|v: int| as_set(arrivals).contains(v) implies #[trigger] set_int_range(
        0,
        n as int,
    ).contains(v) by {
        let k = choose|k: int| 0 <= k < arrivals.len() && arrivals[k] == v as usize;
    }
}

} // verus!
