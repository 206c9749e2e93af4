//! Page-offset bucketing shared by the string index and the address index:
//! every value is keyed by its low twelve bits, and an index is a fixed array
//! of buckets, one per possible key, each bucket holding the values with that
//! key in their original order.

use vstd::prelude::*;

use crate::NUM_BUCKETS;
use crate::PAGE_OFFSET_MASK;

verus! {

/// The page-offset bucket key of a value: its low twelve bits.
pub open spec fn spec_page_key(v: u64) -> u64 {
    v & PAGE_OFFSET_MASK
}

/// Every page key is below the number of buckets.
pub broadcast proof fn lemma_page_key_bound(v: u64)
    ensures
        #[trigger] spec_page_key(v) < 0x1000,
{
    assert(v & 0xFFF < 0x1000) by (bit_vector);
}

/// The page-offset bucket key of a value.
pub fn page_key(v: u64) -> (r: u64)
    ensures
        r == spec_page_key(v),
        r < 0x1000,
{
    proof {
        lemma_page_key_bound(v);
    }
    v & PAGE_OFFSET_MASK
}

/// The subsequence of `s` whose page key is `k`, in the order of `s`.
pub open spec fn bucket_of(s: Seq<u64>, k: u64) -> Seq<u64>
    decreases s.len(),
{
    if s.len() == 0 {
        Seq::empty()
    } else {
        let rest = bucket_of(s.drop_last(), k);
        if spec_page_key(s.last()) == k {
            rest.push(s.last())
        } else {
            rest
        }
    }
}

/// A full index: for every key below the bucket count, the bucket of `s`
/// under that key.
pub open spec fn buckets_of(s: Seq<u64>) -> Seq<Seq<u64>> {
    Seq::new(NUM_BUCKETS as nat, |k: int| bucket_of(s, k as u64))
}

/// Every element of a bucket carries the bucket's key, and a bucket holds a
/// value exactly when the sequence holds it under that key.
pub proof fn lemma_bucket_of_membership(s: Seq<u64>, k: u64)
    ensures
        forall|i: int|
            0 <= i < bucket_of(s, k).len() ==> spec_page_key(#[trigger] bucket_of(s, k)[i]) == k,
        forall|v: u64| bucket_of(s, k).contains(v) <==> s.contains(v) && spec_page_key(v) == k,
    decreases s.len(),
{
    if s.len() > 0 {
        lemma_bucket_of_membership(s.drop_last(), k);
        let rest = bucket_of(s.drop_last(), k);
        assert forall|v: u64| s.contains(v) && spec_page_key(v) == k implies bucket_of(
            s,
            k,
        ).contains(v) by {
            if v == s.last() {
                let b = bucket_of(s, k);
                assert(b[b.len() - 1] == v);
            } else {
                let i = choose|i: int| 0 <= i < s.len() && s[i] == v;
                assert(s.drop_last()[i] == v);
                assert(rest.contains(v));
                let j = choose|j: int| 0 <= j < rest.len() && rest[j] == v;
                assert(bucket_of(s, k)[j] == v);
            }
        }
        assert forall|v: u64| bucket_of(s, k).contains(v) implies s.contains(v)
            && spec_page_key(v) == k by {
            let c = bucket_of(s, k);
            let i = choose|i: int| 0 <= i < c.len() && c[i] == v;
            if i < rest.len() {
                assert(rest[i] == v);
                assert(s.drop_last().contains(v));
                let j = choose|j: int| 0 <= j < s.drop_last().len() && s.drop_last()[j] == v;
                assert(s[j] == v);
            } else {
                assert(s[s.len() - 1] == v);
            }
        }
    }
}

/// A bucket of a duplicate-free sequence is duplicate-free.
pub proof fn lemma_bucket_of_no_duplicates(s: Seq<u64>, k: u64)
    requires
        s.no_duplicates(),
    ensures
        bucket_of(s, k).no_duplicates(),
    decreases s.len(),
{
    if s.len() > 0 {
        assert(s.drop_last().no_duplicates());
        lemma_bucket_of_no_duplicates(s.drop_last(), k);
        if spec_page_key(s.last()) == k {
            let b = bucket_of(s.drop_last(), k);
            lemma_bucket_of_membership(s.drop_last(), k);
            if b.contains(s.last()) {
                let j = choose|j: int| 0 <= j < s.drop_last().len() && s.drop_last()[j] == s.last();
                assert(s[j] == s[s.len() - 1]);
            }
        }
    }
}

/// Groups `values` into page-offset buckets: bucket `k` receives, in input
/// order, exactly the values whose page key is `k`.
pub fn bucket_by_page_offset(values: &Vec<u64>) -> (r: Vec<Vec<u64>>)
    ensures
        r@.len() == NUM_BUCKETS,
        forall|k: int| 0 <= k < NUM_BUCKETS ==> #[trigger] r@[k]@ == bucket_of(values@, k as u64),
{
    let mut r: Vec<Vec<u64>> = Vec::new();
    let mut k: usize = 0;
    while k < NUM_BUCKETS
        invariant
            k <= NUM_BUCKETS,
            r@.len() == k,
            forall|j: int| 0 <= j < k ==> #[trigger] r@[j]@ == Seq::<u64>::empty(),
        decreases NUM_BUCKETS - k,
    {
        r.push(Vec::new());
        k += 1;
    }
    let ghost empty_buckets = r@;
    let mut i: usize = 0;
    while i < values.len()
        invariant
            i <= values@.len(),
            r@.len() == NUM_BUCKETS,
            forall|k: int|
                0 <= k < NUM_BUCKETS ==> #[trigger] r@[k]@ == bucket_of(
                    values@.take(i as int),
                    k as u64,
                ),
        decreases values@.len() - i,
    {
        let v = values[i];
        let key = page_key(v);
        let bucket = &mut r[key as usize];
        bucket.push(v);
        proof {
            assert(values@.take(i + 1).drop_last() =~= values@.take(i as int));
            assert(values@.take(i + 1).last() == values@[i as int]);
        }
        i += 1;
    }
    proof {
        assert(values@.take(values@.len() as int) =~= values@);
    }
    r
}

} // verus!
