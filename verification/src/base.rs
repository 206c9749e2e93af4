//! The base voter: every (string offset, address) pair that shares a
//! page-offset bucket and satisfies address >= offset proposes the
//! difference as a candidate base address. Candidates are tallied, those
//! supported by a single pair are dropped, and the rest are ranked by
//! support descending, with the lower candidate value first among ties.

use vstd::prelude::*;
use vstd::relations::sorted_by;
use vstd::relations::total_ordering;
use vstd::seq_lib::lemma_sorted_unique;

use crate::addresses::Addresses;
use crate::buckets::bucket_of;
use crate::buckets::buckets_of;
use crate::buckets::lemma_bucket_of_membership;
use crate::buckets::lemma_bucket_of_no_duplicates;
use crate::buckets::lemma_page_key_bound;
use crate::buckets::spec_page_key;
use crate::counts::bump_by;
use crate::counts::lemma_lookup_present;
use crate::counts::lookup;
use crate::counts::unique_keys;
use crate::strings::Strings;
use crate::NUM_BUCKETS;

verus! {

/// Whether the pair of string offset `s` and address `a` supports candidate
/// base `c`: the address does not precede the offset, both share a page
/// offset, and their difference is `c`.
pub open spec fn pair_matches(s: u64, a: u64, c: u64) -> bool {
    &&& a >= s
    &&& spec_page_key(a) == spec_page_key(s)
    &&& a - s == c
}

/// How many addresses in `addrs` pair with the single string offset `s` in
/// support of candidate `c`.
pub open spec fn row_tally(s: u64, addrs: Seq<u64>, c: u64) -> nat
    decreases addrs.len(),
{
    if addrs.len() == 0 {
        0
    } else {
        row_tally(s, addrs.drop_last(), c) + if pair_matches(s, addrs.last(), c) {
            1nat
        } else {
            0nat
        }
    }
}

/// The support for candidate `c`: how many (string offset, address) pairs
/// drawn from `strs` and `addrs` match with difference `c`.
pub open spec fn tally(strs: Seq<u64>, addrs: Seq<u64>, c: u64) -> nat
    decreases strs.len(),
{
    if strs.len() == 0 {
        0
    } else {
        tally(strs.drop_last(), addrs, c) + row_tally(strs.last(), addrs, c)
    }
}

/// The support for `c` accumulated over the first `upto` bucket pairs.
pub open spec fn tally_buckets(sb: Seq<Seq<u64>>, ab: Seq<Seq<u64>>, upto: int, c: u64) -> nat
    decreases upto,
{
    if upto <= 0 {
        0
    } else {
        tally_buckets(sb, ab, upto - 1, c) + tally(sb[upto - 1], ab[upto - 1], c)
    }
}

/// Total length of the first `upto` buckets.
pub open spec fn sum_lens(sb: Seq<Seq<u64>>, upto: int) -> nat
    decreases upto,
{
    if upto <= 0 {
        0
    } else {
        sum_lens(sb, upto - 1) + sb[upto - 1].len()
    }
}

/// Against a duplicate-free address sequence, one string offset supports a
/// candidate at most once, and support implies a matching address is
/// present.
pub proof fn lemma_row_tally_le_one(s: u64, addrs: Seq<u64>, c: u64)
    requires
        addrs.no_duplicates(),
    ensures
        row_tally(s, addrs, c) <= 1,
        row_tally(s, addrs, c) == 1 ==> exists|i: int|
            0 <= i < addrs.len() && pair_matches(s, #[trigger] addrs[i], c),
    decreases addrs.len(),
{
    if addrs.len() > 0 {
        assert(addrs.drop_last().no_duplicates());
        lemma_row_tally_le_one(s, addrs.drop_last(), c);
        if pair_matches(s, addrs.last(), c) {
            assert(addrs[addrs.len() - 1] == addrs.last());
            if row_tally(s, addrs.drop_last(), c) == 1 {
                let i = choose|i: int|
                    0 <= i < addrs.drop_last().len() && pair_matches(
                        s,
                        #[trigger] addrs.drop_last()[i],
                        c,
                    );
                assert(addrs[i] == addrs.drop_last()[i]);
                assert(addrs[i] == s + c && addrs.last() == s + c);
                assert(addrs[i] == addrs[addrs.len() - 1]);
                assert(false);
            }
        } else {
            if row_tally(s, addrs, c) == 1 {
                let i = choose|i: int|
                    0 <= i < addrs.drop_last().len() && pair_matches(
                        s,
                        #[trigger] addrs.drop_last()[i],
                        c,
                    );
                assert(pair_matches(s, addrs[i], c));
            }
        }
    }
}

/// Restricting the addresses to the bucket of the string's own page key
/// drops no matching pair: pruning by bucket is sound.
pub proof fn lemma_row_tally_bucket(s: u64, addrs: Seq<u64>, c: u64)
    ensures
        row_tally(s, addrs, c) == row_tally(s, bucket_of(addrs, spec_page_key(s)), c),
    decreases addrs.len(),
{
    let k = spec_page_key(s);
    if addrs.len() > 0 {
        lemma_row_tally_bucket(s, addrs.drop_last(), c);
        let rest = bucket_of(addrs.drop_last(), k);
        if spec_page_key(addrs.last()) == k {
            assert(rest.push(addrs.last()).drop_last() =~= rest);
            assert(rest.push(addrs.last()).last() == addrs.last());
        } else {
            assert(!pair_matches(s, addrs.last(), c));
        }
    }
}

/// Against a duplicate-free address sequence, a candidate's support never
/// exceeds the number of string offsets.
pub proof fn lemma_tally_le_len(strs: Seq<u64>, addrs: Seq<u64>, c: u64)
    requires
        addrs.no_duplicates(),
    ensures
        tally(strs, addrs, c) <= strs.len(),
    decreases strs.len(),
{
    if strs.len() > 0 {
        lemma_tally_le_len(strs.drop_last(), addrs, c);
        lemma_row_tally_le_one(strs.last(), addrs, c);
    }
}

/// With no string offsets or no addresses there are no pairs, so every
/// candidate's support is zero.
pub proof fn lemma_no_pairs_no_tally(strs: Seq<u64>, addrs: Seq<u64>, c: u64)
    requires
        strs.len() == 0 || addrs.len() == 0,
    ensures
        tally(strs, addrs, c) == 0,
    decreases strs.len(),
{
    if strs.len() > 0 {
        lemma_no_pairs_no_tally(strs.drop_last(), addrs, c);
    }
}

/// Pruning correctness: when a candidate base is page-aligned, a string
/// offset and the address obtained by adding the base to it always share a
/// page-offset bucket, so bucketing never drops a true match.
pub proof fn lemma_page_aligned_base_shares_bucket(s: u64, a: u64, base: u64)
    requires
        a >= s,
        a - s == base,
        base & 0xFFF == 0,
    ensures
        spec_page_key(s) == spec_page_key(a),
{
    assert((s & 0xFFF) == (a & 0xFFF)) by (bit_vector)
        requires
            a == base + s,
            base & 0xFFF == 0,
    ;
}

/// Bucket sums over bucket sequences that differ in one index where a
/// string offset was appended.
proof fn lemma_tally_buckets_push(
    sb0: Seq<Seq<u64>>,
    sb1: Seq<Seq<u64>>,
    ab: Seq<Seq<u64>>,
    upto: int,
    c: u64,
    k0: int,
    s0: u64,
)
    requires
        forall|k: int| 0 <= k < upto && k != k0 ==> sb1[k] == sb0[k],
        0 <= k0 < upto ==> sb1[k0] == sb0[k0].push(s0),
    ensures
        tally_buckets(sb1, ab, upto, c) == tally_buckets(sb0, ab, upto, c) + if 0 <= k0 < upto {
            row_tally(s0, ab[k0], c)
        } else {
            0
        },
    decreases upto,
{
    if upto > 0 {
        lemma_tally_buckets_push(sb0, sb1, ab, upto - 1, c, k0, s0);
        if upto - 1 == k0 {
            let old_bucket = sb0[k0];
            assert(sb1[k0] == old_bucket.push(s0));
            assert(old_bucket.push(s0).drop_last() =~= old_bucket);
            assert(old_bucket.push(s0).last() == s0);
        }
    }
}

/// A bucket sum over empty string buckets is zero.
proof fn lemma_tally_buckets_zero(sb: Seq<Seq<u64>>, ab: Seq<Seq<u64>>, upto: int, c: u64)
    requires
        forall|k: int| 0 <= k < upto ==> (#[trigger] sb[k]).len() == 0,
    ensures
        tally_buckets(sb, ab, upto, c) == 0,
    decreases upto,
{
    if upto > 0 {
        lemma_tally_buckets_zero(sb, ab, upto - 1, c);
    }
}

/// Bucket lengths over bucket sequences that differ in one index where a
/// value was appended.
proof fn lemma_sum_lens_push(sb0: Seq<Seq<u64>>, sb1: Seq<Seq<u64>>, upto: int, k0: int, s0: u64)
    requires
        forall|k: int| 0 <= k < upto && k != k0 ==> sb1[k] == sb0[k],
        0 <= k0 < upto ==> sb1[k0] == sb0[k0].push(s0),
    ensures
        sum_lens(sb1, upto) == sum_lens(sb0, upto) + if 0 <= k0 < upto {
            1nat
        } else {
            0nat
        },
    decreases upto,
{
    if upto > 0 {
        lemma_sum_lens_push(sb0, sb1, upto - 1, k0, s0);
    }
}

proof fn lemma_sum_lens_zero(sb: Seq<Seq<u64>>, upto: int)
    requires
        forall|k: int| 0 <= k < upto ==> (#[trigger] sb[k]).len() == 0,
    ensures
        sum_lens(sb, upto) == 0,
    decreases upto,
{
    if upto > 0 {
        lemma_sum_lens_zero(sb, upto - 1);
    }
}

/// The buckets of a sequence hold exactly its values: their lengths sum to
/// the sequence's length.
pub proof fn lemma_buckets_sum_lens(values: Seq<u64>)
    ensures
        sum_lens(buckets_of(values), NUM_BUCKETS as int) == values.len(),
    decreases values.len(),
{
    if values.len() == 0 {
        lemma_sum_lens_zero(buckets_of(values), NUM_BUCKETS as int);
    } else {
        let prefix = values.drop_last();
        let v0 = values.last();
        let k0 = spec_page_key(v0);
        lemma_buckets_sum_lens(prefix);
        lemma_page_key_bound(v0);
        assert forall|k: int| 0 <= k < NUM_BUCKETS && k != k0 implies buckets_of(values)[k]
            == buckets_of(prefix)[k] by {
            assert(bucket_of(values, k as u64) == bucket_of(prefix, k as u64));
        }
        assert(buckets_of(values)[k0 as int] == buckets_of(prefix)[k0 as int].push(v0)) by {
            assert(bucket_of(values, k0) == bucket_of(prefix, k0).push(v0));
        }
        lemma_sum_lens_push(
            buckets_of(prefix),
            buckets_of(values),
            NUM_BUCKETS as int,
            k0 as int,
            v0,
        );
    }
}

/// Bucket prefix sums never exceed the whole: the strings in buckets below
/// `k`, plus bucket `k` itself, fit within the total.
pub proof fn lemma_sum_lens_partial(sb: Seq<Seq<u64>>, k: int, upto: int)
    requires
        0 <= k < upto,
    ensures
        sum_lens(sb, k) + sb[k].len() <= sum_lens(sb, upto),
    decreases upto,
{
    if k == upto - 1 {
    } else {
        lemma_sum_lens_partial(sb, k, upto - 1);
    }
}

/// Bucket sums are bounded by the number of string offsets they draw from.
pub proof fn lemma_tally_buckets_le_sum_lens(
    sb: Seq<Seq<u64>>,
    ab: Seq<Seq<u64>>,
    upto: int,
    c: u64,
)
    requires
        forall|k: int| 0 <= k < upto ==> (#[trigger] ab[k]).no_duplicates(),
    ensures
        tally_buckets(sb, ab, upto, c) <= sum_lens(sb, upto),
    decreases upto,
{
    if upto > 0 {
        lemma_tally_buckets_le_sum_lens(sb, ab, upto - 1, c);
        lemma_tally_le_len(sb[upto - 1], ab[upto - 1], c);
    }
}

/// The partition theorem behind the voter: summing per-bucket support over
/// all page-offset buckets yields exactly the support over the flat string
/// and address sequences. Matching pairs always share a bucket, so walking
/// buckets visits every pair once.
pub proof fn lemma_buckets_partition(strs: Seq<u64>, addrs: Seq<u64>, c: u64)
    ensures
        tally_buckets(buckets_of(strs), buckets_of(addrs), NUM_BUCKETS as int, c) == tally(
            strs,
            addrs,
            c,
        ),
    decreases strs.len(),
{
    if strs.len() == 0 {
        lemma_tally_buckets_zero(buckets_of(strs), buckets_of(addrs), NUM_BUCKETS as int, c);
    } else {
        let prefix = strs.drop_last();
        let s0 = strs.last();
        let k0 = spec_page_key(s0);
        lemma_buckets_partition(prefix, addrs, c);
        lemma_page_key_bound(s0);
        assert forall|k: int| 0 <= k < NUM_BUCKETS && k != k0 implies buckets_of(strs)[k]
            == buckets_of(prefix)[k] by {
            assert(bucket_of(strs, k as u64) == bucket_of(prefix, k as u64));
        }
        assert(buckets_of(strs)[k0 as int] == buckets_of(prefix)[k0 as int].push(s0)) by {
            assert(bucket_of(strs, k0) == bucket_of(prefix, k0).push(s0));
        }
        lemma_tally_buckets_push(
            buckets_of(prefix),
            buckets_of(strs),
            buckets_of(addrs),
            NUM_BUCKETS as int,
            c,
            k0 as int,
            s0,
        );
        lemma_row_tally_bucket(s0, addrs, c);
        assert(buckets_of(addrs)[k0 as int] == bucket_of(addrs, k0));
    }
}

/// The ranking order: higher support first, and the lower candidate value
/// first among candidates with equal support.
pub open spec fn rank_le(x: (u64, usize), y: (u64, usize)) -> bool {
    x.1 > y.1 || (x.1 == y.1 && x.0 <= y.0)
}

/// The ranking order as a relation value.
pub open spec fn rank_order() -> spec_fn((u64, usize), (u64, usize)) -> bool {
    |x: (u64, usize), y: (u64, usize)| rank_le(x, y)
}

/// The ranking order is total, so a ranking is unique once its entries are
/// fixed.
pub proof fn lemma_rank_order_total()
    ensures
        total_ordering(rank_order()),
{
    let leq = rank_order();
    assert forall|x: (u64, usize)| #[trigger] leq(x, x) by {}
    assert forall|x: (u64, usize), y: (u64, usize)| #[trigger] leq(x, y) && #[trigger] leq(y, x)
        implies x == y by {}
    assert forall|x: (u64, usize), y: (u64, usize), z: (u64, usize)|
        #[trigger] leq(x, y) && #[trigger] leq(y, z) implies leq(x, z) by {}
    assert forall|x: (u64, usize), y: (u64, usize)| #[trigger] leq(x, y) || #[trigger] leq(
        y,
        x,
    ) by {}
}

/// The entries whose count is at least two, in entry order.
pub open spec fn filtered_entries(entries: Seq<(u64, usize)>) -> Seq<(u64, usize)>
    decreases entries.len(),
{
    if entries.len() == 0 {
        Seq::empty()
    } else {
        let rest = filtered_entries(entries.drop_last());
        if entries.last().1 >= 2 {
            rest.push(entries.last())
        } else {
            rest
        }
    }
}

/// Filtering keeps exactly the entries counted at least twice, and keeps
/// keys distinct.
pub proof fn lemma_filtered_entries_membership(entries: Seq<(u64, usize)>)
    requires
        unique_keys(entries),
    ensures
        unique_keys(filtered_entries(entries)),
        forall|e: (u64, usize)|
            #[trigger] filtered_entries(entries).contains(e) <==> entries.contains(e) && e.1 >= 2,
    decreases entries.len(),
{
    if entries.len() > 0 {
        assert(unique_keys(entries.drop_last())) by {
            assert forall|p: int, q: int|
                0 <= p < q < entries.drop_last().len() implies (#[trigger] entries.drop_last()[p]).0
                != (#[trigger] entries.drop_last()[q]).0 by {
                assert(entries.drop_last()[p] == entries[p]);
                assert(entries.drop_last()[q] == entries[q]);
            }
        }
        lemma_filtered_entries_membership(entries.drop_last());
        let rest = filtered_entries(entries.drop_last());
        let cur = filtered_entries(entries);
        assert forall|e: (u64, usize)| cur.contains(e) implies entries.contains(e) && e.1 >= 2 by {
            let i = choose|i: int| 0 <= i < cur.len() && cur[i] == e;
            if i < rest.len() {
                assert(rest[i] == e);
                assert(rest.contains(e));
                assert(entries.drop_last().contains(e));
                let j = choose|j: int|
                    0 <= j < entries.drop_last().len() && entries.drop_last()[j] == e;
                assert(entries[j] == e);
            } else {
                assert(entries[entries.len() - 1] == e);
            }
        }
        assert forall|e: (u64, usize)| entries.contains(e) && e.1 >= 2 implies cur.contains(e) by {
            let i = choose|i: int| 0 <= i < entries.len() && entries[i] == e;
            if i < entries.len() - 1 {
                assert(entries.drop_last()[i] == e);
                assert(rest.contains(e));
                let j = choose|j: int| 0 <= j < rest.len() && rest[j] == e;
                assert(cur[j] == e);
            } else {
                assert(cur[cur.len() - 1] == e);
            }
        }
        if entries.last().1 >= 2 {
            assert(unique_keys(cur)) by {
                assert forall|p: int, q: int|
                    0 <= p < q < cur.len() implies (#[trigger] cur[p]).0 != (#[trigger] cur[q]).0
                    by {
                    assert(cur[p] == rest[p]);
                    if q < rest.len() {
                        assert(cur[q] == rest[q]);
                    } else {
                        assert(rest.contains(rest[p]));
                        assert(entries.drop_last().contains(rest[p]));
                        let j = choose|j: int|
                            0 <= j < entries.drop_last().len() && entries.drop_last()[j] == rest[p];
                        assert(entries[j] == rest[p]);
                        assert(entries[j].0 != entries[entries.len() - 1].0);
                    }
                }
            }
        }
    }
}

/// A ranking of the candidates drawn from `strs` and `addrs`: sorted by
/// support descending with the lower candidate first among ties, carrying
/// each candidate supported by at least two pairs exactly once with its
/// exact support, and nothing else.
pub open spec fn is_ranking(strs: Seq<u64>, addrs: Seq<u64>, r: Seq<(u64, usize)>) -> bool {
    &&& sorted_by(r, rank_order())
    &&& unique_keys(r)
    &&& forall|i: int|
        0 <= i < r.len() ==> (#[trigger] r[i]).1 == tally(strs, addrs, r[i].0) && r[i].1 >= 2
    &&& forall|c: u64|
        #[trigger] tally(strs, addrs, c) >= 2 ==> r.contains(
            (c, tally(strs, addrs, c) as usize),
        )
}

/// The best candidate: supported by at least two pairs, with no candidate
/// of higher support and none of equal support and lower value.
pub open spec fn is_best_candidate(strs: Seq<u64>, addrs: Seq<u64>, b: u64) -> bool {
    &&& tally(strs, addrs, b) >= 2
    &&& forall|c: u64|
        #[trigger] tally(strs, addrs, c) >= 2 ==> tally(strs, addrs, c) < tally(strs, addrs, b)
            || (tally(strs, addrs, c) == tally(strs, addrs, b) && b <= c)
}

/// The inferred base address of the image: the best-ranked candidate.
pub struct Base {
    base: u64,
}

impl Base {
    /// The inferred base address.
    pub closed spec fn spec_base(&self) -> u64 {
        self.base
    }

    /// Walks every page-offset bucket of the string index, looks the same
    /// key up in the address index, and counts, for every matching (string
    /// offset, address) pair with address >= offset, one vote for the
    /// difference. The result records each proposed candidate with its
    /// exact support.
    pub fn get_base_addresses(strings: &Strings, addresses: &Addresses) -> (r: Vec<(u64, usize)>)
        requires
            strings.wf(),
            addresses.wf(),
        ensures
            unique_keys(r@),
            forall|c: u64|
                lookup(r@, c) == tally(strings.offsets_seq(), addresses.values_seq(), c),
    {
        let ghost ss = strings.offsets_seq();
        let ghost aa = addresses.values_seq();
        let ghost sb = buckets_of(ss);
        let ghost ab = buckets_of(aa);
        let n_strings = strings.offsets().len();
        let addr_index = addresses.get_addresses();
        proof {
            lemma_buckets_sum_lens(ss);
            assert forall|kk: int| 0 <= kk < NUM_BUCKETS implies (
            #[trigger] ab[kk]).no_duplicates() by {
                lemma_bucket_of_no_duplicates(aa, kk as u64);
            }
        }
        let mut tvec: Vec<(u64, usize)> = Vec::new();
        let mut k: usize = 0;
        while k < NUM_BUCKETS
            invariant
                k <= NUM_BUCKETS,
                strings.wf(),
                addresses.wf(),
                ss == strings.offsets_seq(),
                aa == addresses.values_seq(),
                sb == buckets_of(ss),
                ab == buckets_of(aa),
                n_strings == ss.len(),
                addr_index@.len() == NUM_BUCKETS,
                forall|kk: int|
                    0 <= kk < NUM_BUCKETS ==> #[trigger] addr_index@[kk]@ == bucket_of(
                        aa,
                        kk as u64,
                    ),
                forall|kk: int| 0 <= kk < NUM_BUCKETS ==> (#[trigger] ab[kk]).no_duplicates(),
                sum_lens(sb, NUM_BUCKETS as int) == ss.len(),
                unique_keys(tvec@),
                forall|c: u64| lookup(tvec@, c) == tally_buckets(sb, ab, k as int, c),
            decreases NUM_BUCKETS - k,
        {
            match strings.get(k as u64) {
                Some(sbucket) => {
                    let abucket = &addr_index[k];
                    proof {
                        assert(sb[k as int] == bucket_of(ss, k as u64));
                        assert(ab[k as int] == bucket_of(aa, k as u64));
                        lemma_bucket_of_membership(ss, k as u64);
                        lemma_bucket_of_membership(aa, k as u64);
                    }
                    let mut j: usize = 0;
                    while j < sbucket.len()
                        invariant
                            j <= sbucket@.len(),
                            k < NUM_BUCKETS,
                            sbucket@ == sb[k as int],
                            abucket@ == ab[k as int],
                            n_strings == ss.len(),
                            sum_lens(sb, NUM_BUCKETS as int) == ss.len(),
                            forall|kk: int|
                                0 <= kk < NUM_BUCKETS ==> (#[trigger] ab[kk]).no_duplicates(),
                            forall|i: int|
                                0 <= i < sbucket@.len() ==> spec_page_key(#[trigger] sbucket@[i])
                                    == k as u64,
                            forall|i: int|
                                0 <= i < abucket@.len() ==> spec_page_key(#[trigger] abucket@[i])
                                    == k as u64,
                            unique_keys(tvec@),
                            forall|c: u64|
                                lookup(tvec@, c) == tally_buckets(sb, ab, k as int, c) + tally(
                                    sbucket@.take(j as int),
                                    abucket@,
                                    c,
                                ),
                        decreases sbucket@.len() - j,
                    {
                        let s = sbucket[j];
                        let mut l: usize = 0;
                        while l < abucket.len()
                            invariant
                                l <= abucket@.len(),
                                j < sbucket@.len(),
                                s == sbucket@[j as int],
                                k < NUM_BUCKETS,
                                sbucket@ == sb[k as int],
                                abucket@ == ab[k as int],
                                n_strings == ss.len(),
                                sum_lens(sb, NUM_BUCKETS as int) == ss.len(),
                                forall|kk: int|
                                    0 <= kk < NUM_BUCKETS ==> (#[trigger] ab[kk]).no_duplicates(),
                                forall|i: int|
                                    0 <= i < sbucket@.len() ==> spec_page_key(
                                        #[trigger] sbucket@[i],
                                    ) == k as u64,
                                forall|i: int|
                                    0 <= i < abucket@.len() ==> spec_page_key(
                                        #[trigger] abucket@[i],
                                    ) == k as u64,
                                unique_keys(tvec@),
                                forall|c: u64|
                                    lookup(tvec@, c) == tally_buckets(sb, ab, k as int, c) + tally(
                                        sbucket@.take(j as int),
                                        abucket@,
                                        c,
                                    ) + row_tally(s, abucket@.take(l as int), c),
                            decreases abucket@.len() - l,
                        {
                            let a = abucket[l];
                            if a >= s {
                                let c0 = a - s;
                                proof {
                                    assert(pair_matches(s, a, c0));
                                    let prefix = abucket@.take(l as int);
                                    assert(prefix.no_duplicates()) by {
                                        assert forall|p: int, q: int|
                                            0 <= p < q < prefix.len() implies #[trigger] prefix[p]
                                            != #[trigger] prefix[q] by {
                                            assert(prefix[p] == abucket@[p]);
                                            assert(prefix[q] == abucket@[q]);
                                        }
                                    }
                                    lemma_row_tally_le_one(s, prefix, c0);
                                    if row_tally(s, prefix, c0) == 1 {
                                        let i = choose|i: int|
                                            0 <= i < prefix.len() && pair_matches(
                                                s,
                                                #[trigger] prefix[i],
                                                c0,
                                            );
                                        assert(abucket@[i] == s + c0);
                                        assert(abucket@[l as int] == s + c0);
                                        assert(ab[k as int][i] == ab[k as int][l as int]);
                                        assert(false);
                                    }
                                    lemma_tally_le_len(sbucket@.take(j as int), abucket@, c0);
                                    lemma_tally_buckets_le_sum_lens(sb, ab, k as int, c0);
                                    lemma_sum_lens_partial(sb, k as int, NUM_BUCKETS as int);
                                    assert(lookup(tvec@, c0) < n_strings);
                                }
                                bump_by(&mut tvec, c0, 1);
                            }
                            proof {
                                let prefix = abucket@.take(l as int);
                                assert(abucket@.take(l + 1).drop_last() =~= prefix);
                                assert(abucket@.take(l + 1).last() == abucket@[l as int]);
                                if !(a >= s) {
                                    assert(forall|c: u64| !pair_matches(s, a, c));
                                }
                            }
                            l += 1;
                        }
                        proof {
                            assert(abucket@.take(abucket@.len() as int) =~= abucket@);
                            assert(sbucket@.take(j + 1).drop_last() =~= sbucket@.take(j as int));
                            assert(sbucket@.take(j + 1).last() == sbucket@[j as int]);
                        }
                        j += 1;
                    }
                    proof {
                        assert(sbucket@.take(sbucket@.len() as int) =~= sbucket@);
                    }
                },
                None => {
                    proof {
                        assert(sb[k as int] == bucket_of(ss, k as u64));
                        assert(sb[k as int].len() == 0);
                    }
                },
            }
            k += 1;
        }
        proof {
            assert forall|c: u64|
                lookup(tvec@, c) == tally(ss, aa, c) by {
                lemma_buckets_partition(ss, aa, c);
            }
        }
        tvec
    }

    /// Drops every candidate whose support is one: a base explaining only
    /// one pair is indistinguishable from coincidence.
    pub fn filter_base_addresses(bases: Vec<(u64, usize)>) -> (r: Vec<(u64, usize)>)
        ensures
            r@ == filtered_entries(bases@),
    {
        let mut r: Vec<(u64, usize)> = Vec::new();
        let mut i: usize = 0;
        while i < bases.len()
            invariant
                i <= bases@.len(),
                r@ == filtered_entries(bases@.take(i as int)),
            decreases bases@.len() - i,
        {
            let e = bases[i];
            if e.1 > 1 {
                r.push(e);
            }
            proof {
                assert(bases@.take(i + 1).drop_last() =~= bases@.take(i as int));
                assert(bases@.take(i + 1).last() == bases@[i as int]);
            }
            i += 1;
        }
        proof {
            assert(bases@.take(bases@.len() as int) =~= bases@);
        }
        r
    }

    /// Sorts the candidates by support descending, with the lower candidate
    /// value first among equal support: a deterministic total order.
    pub fn get_ordered_base_addresses(collated: Vec<(u64, usize)>) -> (r: Vec<(u64, usize)>)
        ensures
            sorted_by(r@, rank_order()),
            r@.to_multiset() == collated@.to_multiset(),
    {
        let mut r: Vec<(u64, usize)> = Vec::new();
        proof {
            assert(r@.to_multiset() =~= collated@.take(0).to_multiset()) by {
                assert(collated@.take(0) =~= Seq::<(u64, usize)>::empty());
            }
        }
        let mut i: usize = 0;
        while i < collated.len()
            invariant
                i <= collated@.len(),
                sorted_by(r@, rank_order()),
                r@.to_multiset() == collated@.take(i as int).to_multiset(),
            decreases collated@.len() - i,
        {
            let e = collated[i];
            let mut pos: usize = 0;
            while pos < r.len() && (r[pos].1 > e.1 || (r[pos].1 == e.1 && r[pos].0 <= e.0))
                invariant
                    pos <= r@.len(),
                    sorted_by(r@, rank_order()),
                    forall|p: int| 0 <= p < pos ==> rank_le(#[trigger] r@[p], e),
                decreases r@.len() - pos,
            {
                pos += 1;
            }
            let ghost old_r = r@;
            r.insert(pos, e);
            proof {
                assert(sorted_by(r@, rank_order())) by {
                    assert forall|p: int, q: int|
                        0 <= p < q < r@.len() implies rank_order()(r@[p], r@[q]) by {
                        if q < pos {
                            assert(r@[p] == old_r[p] && r@[q] == old_r[q]);
                        } else if q == pos {
                            assert(r@[p] == old_r[p] && r@[q] == e);
                        } else if p < pos {
                            assert(r@[p] == old_r[p] && r@[q] == old_r[q - 1]);
                        } else if p == pos {
                            assert(r@[p] == e && r@[q] == old_r[q - 1]);
                            assert(pos < old_r.len());
                            assert(!rank_le(old_r[pos as int], e));
                            assert(rank_le(e, old_r[pos as int]));
                            if q - 1 > pos {
                                assert(rank_order()(old_r[pos as int], old_r[q - 1]));
                            }
                        } else {
                            assert(r@[p] == old_r[p - 1] && r@[q] == old_r[q - 1]);
                        }
                    }
                }
                vstd::seq_lib::to_multiset_insert(old_r, pos as int, e);
                vstd::seq_lib::to_multiset_build(collated@.take(i as int), e);
                assert(collated@.take(i + 1) =~= collated@.take(i as int).push(
                    collated@[i as int],
                ));
            }
            i += 1;
        }
        proof {
            assert(collated@.take(collated@.len() as int) =~= collated@);
        }
        r
    }

    /// The voter: tallies every bucket-matched pair, drops singly-supported
    /// candidates, and ranks the rest. The result is the unique ranking of
    /// the candidates drawn from the two indices.
    pub fn vote(strings: &Strings, addresses: &Addresses) -> (r: Vec<(u64, usize)>)
        requires
            strings.wf(),
            addresses.wf(),
        ensures
            is_ranking(strings.offsets_seq(), addresses.values_seq(), r@),
    {
        let ghost ss = strings.offsets_seq();
        let ghost aa = addresses.values_seq();
        let bases = Self::get_base_addresses(strings, addresses);
        let ghost tv = bases@;
        let filtered = Self::filter_base_addresses(bases);
        let ghost ft = filtered@;
        let sorted = Self::get_ordered_base_addresses(filtered);
        let ghost st = sorted@;
        proof {
            broadcast use vstd::seq_lib::group_to_multiset_ensures;

            lemma_filtered_entries_membership(tv);
            lemma_unique_keys_multiset(ft, st);
            lemma_multiset_contains_equiv(ft, st);
            assert forall|i: int|
                0 <= i < st.len() implies (#[trigger] st[i]).1 == tally(ss, aa, st[i].0)
                && st[i].1 >= 2 by {
                assert(st.contains(st[i]));
                assert(ft.contains(st[i]));
                assert(tv.contains(st[i]));
                let p = choose|p: int| 0 <= p < tv.len() && tv[p] == st[i];
                lemma_lookup_present(tv, p);
            }
            assert forall|c: u64| tally(ss, aa, c) >= 2 implies st.contains(
                (c, tally(ss, aa, c) as usize),
            ) by {
                assert(lookup(tv, c) == tally(ss, aa, c));
                crate::counts::lemma_lookup_nonzero_present(tv, c);
                let p = choose|p: int| 0 <= p < tv.len() && (#[trigger] tv[p]).0 == c;
                lemma_lookup_present(tv, p);
                assert(tv[p] == (c, tally(ss, aa, c) as usize));
                assert(tv.contains(tv[p]));
                assert(ft.contains(tv[p]));
            }
        }
        sorted
    }

    /// Runs the voter and takes the best-ranked candidate, or reports that
    /// no candidate survived filtering: a valid outcome, not an error.
    pub fn new(strings: &Strings, addresses: &Addresses) -> (r: Option<Base>)
        requires
            strings.wf(),
            addresses.wf(),
        ensures
            match r {
                Some(b) => is_best_candidate(
                    strings.offsets_seq(),
                    addresses.values_seq(),
                    b.spec_base(),
                ),
                None => forall|c: u64|
                    tally(strings.offsets_seq(), addresses.values_seq(), c) < 2,
            },
    {
        let ghost ss = strings.offsets_seq();
        let ghost aa = addresses.values_seq();
        let sorted = Self::vote(strings, addresses);
        if sorted.len() == 0 {
            proof {
                assert forall|c: u64| tally(ss, aa, c) < 2 by {
                    if tally(ss, aa, c) >= 2 {
                        assert(sorted@.contains((c, tally(ss, aa, c) as usize)));
                    }
                }
            }
            None
        } else {
            let best = sorted[0].0;
            proof {
                let st = sorted@;
                assert(st[0].1 == tally(ss, aa, best) && st[0].1 >= 2);
                assert forall|c: u64| tally(ss, aa, c) >= 2 implies tally(ss, aa, c) < tally(
                    ss,
                    aa,
                    best,
                ) || (tally(ss, aa, c) == tally(ss, aa, best) && best <= c) by {
                    assert(st.contains((c, tally(ss, aa, c) as usize)));
                    let q = choose|q: int| 0 <= q < st.len() && st[q] == (c, tally(ss, aa, c) as usize);
                    if q > 0 {
                        assert(rank_order()(st[0], st[q]));
                    }
                }
            }
            Some(Base { base: best })
        }
    }

    /// The inferred base address.
    pub fn base(&self) -> (r: u64)
        ensures
            r == self.spec_base(),
    {
        self.base
    }
}

/// Sequences with equal multisets hold the same elements.
proof fn lemma_multiset_contains_equiv(a: Seq<(u64, usize)>, b: Seq<(u64, usize)>)
    requires
        a.to_multiset() == b.to_multiset(),
    ensures
        forall|e: (u64, usize)| #[trigger] a.contains(e) <==> b.contains(e),
{
    assert forall|e: (u64, usize)| #[trigger] a.contains(e) <==> b.contains(e) by {
        vstd::seq_lib::to_multiset_contains(a, e);
        vstd::seq_lib::to_multiset_contains(b, e);
    }
}

/// Two entry sequences with equal multisets and distinct keys on one side
/// have distinct keys on the other.
proof fn lemma_unique_keys_multiset(a: Seq<(u64, usize)>, b: Seq<(u64, usize)>)
    requires
        unique_keys(a),
        a.to_multiset() == b.to_multiset(),
    ensures
        unique_keys(b),
{
    broadcast use vstd::seq_lib::group_to_multiset_ensures;

    assert(a.no_duplicates()) by {
        assert forall|p: int, q: int| 0 <= p < q < a.len() implies a[p] != a[q] by {
            assert(a[p].0 != a[q].0);
        }
    }
    a.lemma_multiset_has_no_duplicates();
    b.lemma_multiset_has_no_duplicates_conv();
    lemma_multiset_contains_equiv(a, b);
    assert forall|p: int, q: int|
        0 <= p < q < b.len() implies (#[trigger] b[p]).0 != (#[trigger] b[q]).0 by {
        assert(b[p] != b[q]);
        assert(b.contains(b[p]));
        assert(b.contains(b[q]));
        assert(a.contains(b[p]));
        assert(a.contains(b[q]));
        let x = choose|x: int| 0 <= x < a.len() && a[x] == b[p];
        let y = choose|y: int| 0 <= y < a.len() && a[y] == b[q];
        assert(x != y);
    }
}

/// Repeated runs over the same indices are observationally identical: the
/// ranking of a pair of indices is unique, so any two rankings of the same
/// string offsets and addresses are equal, and in particular their best
/// candidates and tallies agree.
pub proof fn lemma_vote_deterministic(
    strs: Seq<u64>,
    addrs: Seq<u64>,
    r1: Seq<(u64, usize)>,
    r2: Seq<(u64, usize)>,
)
    requires
        is_ranking(strs, addrs, r1),
        is_ranking(strs, addrs, r2),
    ensures
        r1 == r2,
{
    broadcast use vstd::seq_lib::group_to_multiset_ensures;

    lemma_rank_order_total();
    assert forall|e: (u64, usize)| r1.contains(e) implies r2.contains(e) by {
        let i = choose|i: int| 0 <= i < r1.len() && r1[i] == e;
        assert(r1[i].1 == tally(strs, addrs, e.0) && r1[i].1 >= 2);
        assert(r2.contains((e.0, tally(strs, addrs, e.0) as usize)));
    }
    assert forall|e: (u64, usize)| r2.contains(e) implies r1.contains(e) by {
        let i = choose|i: int| 0 <= i < r2.len() && r2[i] == e;
        assert(r2[i].1 == tally(strs, addrs, e.0) && r2[i].1 >= 2);
        assert(r1.contains((e.0, tally(strs, addrs, e.0) as usize)));
    }
    assert(r1.no_duplicates()) by {
        assert forall|p: int, q: int| 0 <= p < q < r1.len() implies r1[p] != r1[q] by {
            assert(r1[p].0 != r1[q].0);
        }
    }
    assert(r2.no_duplicates()) by {
        assert forall|p: int, q: int| 0 <= p < q < r2.len() implies r2[p] != r2[q] by {
            assert(r2[p].0 != r2[q].0);
        }
    }
    r1.lemma_multiset_has_no_duplicates();
    r2.lemma_multiset_has_no_duplicates();
    assert(r1.to_multiset() =~= r2.to_multiset()) by {
        assert forall|e: (u64, usize)|
            r1.to_multiset().count(e) == #[trigger] r2.to_multiset().count(e) by {
            if r1.contains(e) {
                assert(r2.contains(e));
            } else if r2.contains(e) {
                assert(r1.contains(e));
            }
        }
    }
    lemma_sorted_unique(r1, r2, rank_order());
}

/// Two best candidates of the same indices are the same value.
pub proof fn lemma_best_candidate_unique(strs: Seq<u64>, addrs: Seq<u64>, b1: u64, b2: u64)
    requires
        is_best_candidate(strs, addrs, b1),
        is_best_candidate(strs, addrs, b2),
    ensures
        b1 == b2,
{
    assert(tally(strs, addrs, b1) >= 2 && tally(strs, addrs, b2) >= 2);
}

/// Singleton filtering: a candidate supported by at most one pair never
/// appears in the final ranking.
pub proof fn lemma_singleton_absent_from_ranking(
    strs: Seq<u64>,
    addrs: Seq<u64>,
    r: Seq<(u64, usize)>,
    c: u64,
)
    requires
        is_ranking(strs, addrs, r),
        tally(strs, addrs, c) <= 1,
    ensures
        forall|i: int| 0 <= i < r.len() ==> (#[trigger] r[i]).0 != c,
{
    assert forall|i: int| 0 <= i < r.len() implies (#[trigger] r[i]).0 != c by {
        if r[i].0 == c {
            assert(r[i].1 == tally(strs, addrs, c));
        }
    }
}

/// A candidate supported by at least two pairs and strictly better
/// supported than every other candidate is the best candidate.
pub proof fn lemma_dominant_candidate_wins(strs: Seq<u64>, addrs: Seq<u64>, b: u64, best: u64)
    requires
        tally(strs, addrs, b) >= 2,
        forall|c: u64| c != b ==> #[trigger] tally(strs, addrs, c) < tally(strs, addrs, b),
        is_best_candidate(strs, addrs, best),
    ensures
        best == b,
{
    if best != b {
        assert(tally(strs, addrs, best) < tally(strs, addrs, b));
        assert(tally(strs, addrs, b) >= 2);
    }
}

} // verus!
