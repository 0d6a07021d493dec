pub mod bits;
pub mod trie;
pub mod compressor;
pub mod decoder;
pub mod point_store;
pub mod square_matrix;
pub mod huffman;

use std::collections::HashMap;
use vstd::prelude::*;
use vstd::std_specs::hash::obeys_key_model;

verus! {

broadcast use vstd::std_specs::hash::group_hash_axioms;

/// `c + 1`, saturating at `u64::MAX`.
pub open spec fn count_up(c: u64) -> u64 {
    if c == u64::MAX {
        c
    } else {
        (c + 1) as u64
    }
}

/// The counts of `m` with one more for each value of `nums`, kept under `Some`.
pub open spec fn counted(m: Map<Option<i8>, u64>, nums: Seq<i8>) -> Map<Option<i8>, u64>
    decreases nums.len(),
{
    if nums.len() == 0 {
        m
    } else {
        let before = counted(m, nums.drop_last());
        let k = Some(nums.last());
        before.insert(
            k,
            if before.contains_key(k) {
                count_up(before[k])
            } else {
                1
            },
        )
    }
}

/// `x` capped at `u64::MAX`.
pub open spec fn capped(x: int) -> int {
    if x > u64::MAX {
        u64::MAX as int
    } else {
        x
    }
}

/// Counting adds, for each value `v`, the number of times `v` occurs in `nums` to its old
/// count (0 when it had none), capped at `u64::MAX`; a value gets a count exactly when it
/// had one or occurs in `nums`; the count of `None` is left as it was.
pub proof fn lemma_counted_occurrences(m: Map<Option<i8>, u64>, nums: Seq<i8>)
    ensures
        forall|v: i8|
            #[trigger] counted(m, nums).contains_key(Some(v)) <==> (m.contains_key(Some(v))
                || nums.to_multiset().count(v) > 0),
        forall|v: i8|
            #[trigger] counted(m, nums).contains_key(Some(v)) ==> counted(m, nums)[Some(v)] as int
                == capped(
                (if m.contains_key(Some(v)) {
                    m[Some(v)] as int
                } else {
                    0
                }) + nums.to_multiset().count(v),
            ),
        counted(m, nums).contains_key(None) <==> m.contains_key(None),
        m.contains_key(None) ==> counted(m, nums)[None] == m[None],
    decreases nums.len(),
{
    broadcast use vstd::seq_lib::group_to_multiset_ensures, vstd::multiset::group_multiset_axioms;

    if nums.len() == 0 {
        assert(nums.to_multiset() =~= vstd::multiset::Multiset::empty());
    } else {
        let p = nums.drop_last();
        let x = nums.last();
        lemma_counted_occurrences(m, p);
        assert(nums =~= p.push(x));
        assert(nums.to_multiset() =~= p.to_multiset().insert(x));
        let before = counted(m, p);
        let after = counted(m, nums);
        assert forall|v: i8| #[trigger] after.contains_key(Some(v)) implies after[Some(v)] as int
            == capped(
            (if m.contains_key(Some(v)) {
                m[Some(v)] as int
            } else {
                0
            }) + nums.to_multiset().count(v),
        ) by {
            if v == x {
                if before.contains_key(Some(v)) {
                    assert(before[Some(v)] as int == capped(
                        (if m.contains_key(Some(v)) {
                            m[Some(v)] as int
                        } else {
                            0
                        }) + p.to_multiset().count(v),
                    ));
                } else {
                    assert(!m.contains_key(Some(v)));
                    assert(p.to_multiset().count(v) == 0);
                }
            } else {
                assert(after[Some(v)] == before[Some(v)]);
            }
        }
        assert forall|v: i8| #[trigger] after.contains_key(Some(v)) <==> (m.contains_key(Some(v))
            || nums.to_multiset().count(v) > 0) by {
            assert(before.contains_key(Some(v)) <==> (m.contains_key(Some(v)) || p.to_multiset().count(v)
                > 0));
        }
    }
}

/// Adds one to the count of each value of `nums` (a first one counts 1).
pub fn frequency_count(counts: &mut HashMap<Option<i8>, u64>, nums: &[i8])
    requires
        obeys_key_model::<Option<i8>>(),
    ensures
        final(counts)@ == counted(old(counts)@, nums@),
{
    let ghost m0 = counts@;
    let mut i: usize = 0;
    assert(nums@.take(0) =~= Seq::<i8>::empty());
    while i < nums.len()
        invariant
            i <= nums@.len(),
            obeys_key_model::<Option<i8>>(),
            counts@ == counted(m0, nums@.take(i as int)),
        decreases nums@.len() - i,
    {
        let k = Some(nums[i]);
        let c: u64 = match counts.get(&k) {
            Some(v) => v.saturating_add(1),
            None => 1,
        };
        counts.insert(k, c);
        proof {
            assert(nums@.take(i + 1).drop_last() =~= nums@.take(i as int));
        }
        i = i + 1;
    }
    assert(nums@.take(nums@.len() as int) =~= nums@);
}

} // verus!
