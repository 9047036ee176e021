//! Counting how often each key occurs.
use std::collections::HashMap;
use vstd::prelude::*;

verus! {

/// The number of occurrences of `k` in `keys`.
pub open spec fn occurrences(keys: Seq<u32>, k: u32) -> nat
    decreases keys.len(),
{
    if keys.len() == 0 {
        0
    } else {
        occurrences(keys.drop_last(), k) + if keys.last() == k {
            1nat
        } else {
            0nat
        }
    }
}

proof fn lemma_occurrences_bounds(keys: Seq<u32>, k: u32)
    ensures
        occurrences(keys, k) <= keys.len(),
        occurrences(keys, k) > 0 <==> keys.contains(k),
    decreases keys.len(),
{
    if keys.len() > 0 {
        lemma_occurrences_bounds(keys.drop_last(), k);
        if keys.drop_last().contains(k) {
            let i = choose|i: int| 0 <= i < keys.drop_last().len() && keys.drop_last()[i] == k;
            assert(keys[i] == k);
        }
        if keys.contains(k) && keys.last() != k {
            let i = choose|i: int| 0 <= i < keys.len() && keys[i] == k;
            assert(keys.drop_last()[i] == k);
        }
    }
}

/// Counts the occurrences of each key: the map holds exactly the keys that
/// occur, each with its number of occurrences.
pub fn count_keys(keys: &[u32]) -> (r: HashMap<u32, u64>)
    ensures
        forall|k: u32| #[trigger] r@.contains_key(k) <==> keys@.contains(k),
        forall|k: u32| r@.contains_key(k) ==> r@[k] == occurrences(keys@, k),
{
    broadcast use vstd::std_specs::hash::group_hash_axioms;

    let mut m: HashMap<u32, u64> = HashMap::new();
    let n = keys.len();
    let mut i: usize = 0;
    while i < n
        invariant
            i <= n == keys@.len(),
            forall|k: u32| #[trigger] m@.contains_key(k) <==> keys@.take(i as int).contains(k),
            forall|k: u32| m@.contains_key(k) ==> m@[k] == occurrences(keys@.take(i as int), k),
        decreases n - i,
    {
        let k = keys[i];
        let ghost before = keys@.take(i as int);
        let ghost after = keys@.take(i + 1);
        assert(after.drop_last() =~= before);
        proof {
            lemma_occurrences_bounds(before, k);
        }
        let c: u64 = match m.get(&k) {
            Some(c) => *c,
            None => 0,
        };
        assert(c == occurrences(before, k));
        m.insert(k, c + 1);
        proof {
            assert forall|j: u32| #[trigger] m@.contains_key(j) <==> after.contains(j) by {
                if before.contains(j) {
                    let p = choose|p: int| 0 <= p < before.len() && before[p] == j;
                    assert(after[p] == j);
                }
                if after.contains(j) && j != k {
                    let p = choose|p: int| 0 <= p < after.len() && after[p] == j;
                    assert(p < i);
                    assert(before[p] == j);
                }
                assert(after[i as int] == k);
            }
        }
        i += 1;
    }
    assert(keys@.take(n as int) =~= keys@);
    m
}

} // verus!
