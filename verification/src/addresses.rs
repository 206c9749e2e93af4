//! The address locator: partitions the buffer into non-overlapping words,
//! decodes each under the configured width and byte order, discards the
//! all-zero value, keeps only values that occur more than once, caps the
//! sample, and indexes the survivors by page offset.

use vstd::prelude::*;

use crate::buckets::bucket_by_page_offset;
use crate::buckets::bucket_of;
use crate::config::Endian;
use crate::config::Size;
use crate::counts::bump_by;
use crate::counts::keys_of;
use crate::counts::lemma_lookup_present;
use crate::counts::lookup;
use crate::counts::unique_keys;
use crate::NUM_BUCKETS;

verus! {

/// 256 raised to `n`: the number of values `n` bytes can encode.
pub open spec fn pow256(n: nat) -> nat
    decreases n,
{
    if n == 0 {
        1
    } else {
        256 * pow256((n - 1) as nat)
    }
}

pub proof fn lemma_pow256_mono(a: nat, b: nat)
    requires
        a <= b,
    ensures
        pow256(a) <= pow256(b),
    decreases b,
{
    if a < b {
        lemma_pow256_mono(a, (b - 1) as nat);
    }
}

/// The largest word this library decodes has eight bytes.
pub proof fn lemma_pow256_word_bound()
    ensures
        pow256(8) == 0x1_0000_0000_0000_0000,
        pow256(4) == 0x1_0000_0000,
{
    assert(pow256(0) == 1);
    assert(pow256(1) == 256);
    assert(pow256(2) == 0x1_0000);
    assert(pow256(3) == 0x100_0000);
    assert(pow256(4) == 0x1_0000_0000);
    assert(pow256(5) == 0x100_0000_0000);
    assert(pow256(6) == 0x1_0000_0000_0000);
    assert(pow256(7) == 0x100_0000_0000_0000);
    assert(pow256(8) == 0x1_0000_0000_0000_0000);
}

/// The unsigned value of `s` read least significant byte first.
pub open spec fn le_word_val(s: Seq<u8>) -> nat
    decreases s.len(),
{
    if s.len() == 0 {
        0
    } else {
        (s[0] + 256 * le_word_val(s.drop_first())) as nat
    }
}

/// The unsigned value of `s` read most significant byte first.
pub open spec fn be_word_val(s: Seq<u8>) -> nat
    decreases s.len(),
{
    if s.len() == 0 {
        0
    } else {
        (256 * be_word_val(s.drop_last()) + s.last()) as nat
    }
}

pub proof fn lemma_le_word_val_bound(s: Seq<u8>)
    ensures
        le_word_val(s) < pow256(s.len()),
    decreases s.len(),
{
    if s.len() > 0 {
        lemma_le_word_val_bound(s.drop_first());
    }
}

pub proof fn lemma_be_word_val_bound(s: Seq<u8>)
    ensures
        be_word_val(s) < pow256(s.len()),
    decreases s.len(),
{
    if s.len() > 0 {
        lemma_be_word_val_bound(s.drop_last());
    }
}

/// The word of `w` bytes starting at byte position `pos`, decoded under `e`.
pub open spec fn word_at(b: Seq<u8>, w: nat, e: Endian, pos: int) -> u64 {
    let s = b.subrange(pos, pos + w);
    match e {
        Endian::Little => le_word_val(s) as u64,
        Endian::Big => be_word_val(s) as u64,
    }
}

/// The value of the `k`-th non-overlapping word of the buffer.
pub open spec fn word_val(b: Seq<u8>, w: nat, e: Endian, k: int) -> u64 {
    word_at(b, w, e, k * w)
}

/// How many whole words the buffer holds; a trailing partial word is
/// ignored.
pub open spec fn num_words(b: Seq<u8>, w: nat) -> int {
    b.len() as int / w as int
}

/// The values of the first `n` words that decode to something other than
/// zero, in word order.
pub open spec fn nonzero_words_upto(b: Seq<u8>, w: nat, e: Endian, n: int) -> Seq<u64>
    decreases n,
{
    if n <= 0 {
        Seq::empty()
    } else {
        let rest = nonzero_words_upto(b, w, e, n - 1);
        if word_val(b, w, e, n - 1) != 0 {
            rest.push(word_val(b, w, e, n - 1))
        } else {
            rest
        }
    }
}

/// The values of all nonzero words of the buffer, in word order.
pub open spec fn nonzero_words(b: Seq<u8>, w: nat, e: Endian) -> Seq<u64> {
    nonzero_words_upto(b, w, e, num_words(b, w))
}

/// How many of the first `n` words decode to exactly `v`.
pub open spec fn word_count(b: Seq<u8>, w: nat, e: Endian, v: u64, n: int) -> nat
    decreases n,
{
    if n <= 0 {
        0
    } else {
        word_count(b, w, e, v, n - 1) + if word_val(b, w, e, n - 1) == v {
            1nat
        } else {
            0nat
        }
    }
}

/// How often `v` occurs in `s`.
pub open spec fn count_val(s: Seq<u64>, v: u64) -> nat
    decreases s.len(),
{
    if s.len() == 0 {
        0
    } else {
        count_val(s.drop_last(), v) + if s.last() == v {
            1nat
        } else {
            0nat
        }
    }
}

pub proof fn lemma_count_le_len(s: Seq<u64>, v: u64)
    ensures
        count_val(s, v) <= s.len(),
    decreases s.len(),
{
    if s.len() > 0 {
        lemma_count_le_len(s.drop_last(), v);
    }
}

/// For a nonzero value, occurrences among the nonzero words are exactly
/// occurrences among the words.
pub proof fn lemma_nonzero_count(b: Seq<u8>, w: nat, e: Endian, v: u64, n: int)
    requires
        v != 0,
    ensures
        count_val(nonzero_words_upto(b, w, e, n), v) == word_count(b, w, e, v, n),
    decreases n,
{
    if n > 0 {
        lemma_nonzero_count(b, w, e, v, n - 1);
        let rest = nonzero_words_upto(b, w, e, n - 1);
        if word_val(b, w, e, n - 1) != 0 {
            assert(rest.push(word_val(b, w, e, n - 1)).drop_last() =~= rest);
        }
    }
}

/// The zero value never enters the nonzero word sequence.
pub proof fn lemma_nonzero_words_no_zero(b: Seq<u8>, w: nat, e: Endian, n: int)
    ensures
        !nonzero_words_upto(b, w, e, n).contains(0u64),
    decreases n,
{
    if n > 0 {
        lemma_nonzero_words_no_zero(b, w, e, n - 1);
        let rest = nonzero_words_upto(b, w, e, n - 1);
        let cur = nonzero_words_upto(b, w, e, n);
        if cur.contains(0u64) {
            let i = choose|i: int| 0 <= i < cur.len() && cur[i] == 0u64;
            if i < rest.len() {
                assert(rest[i] == 0u64);
            }
        }
    }
}

/// The first occurrences of the values of `s`, in order of first occurrence.
pub open spec fn firsts(s: Seq<u64>) -> Seq<u64>
    decreases s.len(),
{
    if s.len() == 0 {
        Seq::empty()
    } else {
        let rest = firsts(s.drop_last());
        if rest.contains(s.last()) {
            rest
        } else {
            rest.push(s.last())
        }
    }
}

/// The first-occurrence sequence holds each value of `s` exactly once.
pub proof fn lemma_firsts_membership(s: Seq<u64>)
    ensures
        firsts(s).no_duplicates(),
        forall|v: u64| #[trigger] firsts(s).contains(v) <==> s.contains(v),
    decreases s.len(),
{
    if s.len() > 0 {
        lemma_firsts_membership(s.drop_last());
        let rest = firsts(s.drop_last());
        let cur = firsts(s);
        assert forall|v: u64| cur.contains(v) implies s.contains(v) by {
            let i = choose|i: int| 0 <= i < cur.len() && cur[i] == v;
            if i < rest.len() {
                assert(rest[i] == v);
                assert(rest.contains(v));
                assert(s.drop_last().contains(v));
                let j = choose|j: int| 0 <= j < s.drop_last().len() && s.drop_last()[j] == v;
                assert(s[j] == v);
            } else {
                assert(s[s.len() - 1] == v);
            }
        }
        assert forall|v: u64| s.contains(v) implies cur.contains(v) by {
            let i = choose|i: int| 0 <= i < s.len() && s[i] == v;
            if i < s.len() - 1 {
                assert(s.drop_last()[i] == v);
                assert(rest.contains(v));
                let j = choose|j: int| 0 <= j < rest.len() && rest[j] == v;
                assert(cur[j] == v);
            } else {
                if rest.contains(s.last()) {
                    let j = choose|j: int| 0 <= j < rest.len() && rest[j] == v;
                    assert(cur[j] == v);
                } else {
                    assert(cur[cur.len() - 1] == v);
                }
            }
        }
    }
}

/// The keys among `keys` whose value recurs in `values`: occurs at least
/// twice.
pub open spec fn recurring_of(keys: Seq<u64>, values: Seq<u64>) -> Seq<u64>
    decreases keys.len(),
{
    if keys.len() == 0 {
        Seq::empty()
    } else {
        let rest = recurring_of(keys.drop_last(), values);
        if count_val(values, keys.last()) >= 2 {
            rest.push(keys.last())
        } else {
            rest
        }
    }
}

/// Membership and distinctness of the recurring-key sequence.
pub proof fn lemma_recurring_of_membership(keys: Seq<u64>, values: Seq<u64>)
    requires
        keys.no_duplicates(),
    ensures
        recurring_of(keys, values).no_duplicates(),
        forall|v: u64|
            #[trigger] recurring_of(keys, values).contains(v) <==> keys.contains(v) && count_val(
                values,
                v,
            ) >= 2,
    decreases keys.len(),
{
    if keys.len() > 0 {
        assert(keys.drop_last().no_duplicates());
        lemma_recurring_of_membership(keys.drop_last(), values);
        let rest = recurring_of(keys.drop_last(), values);
        let cur = recurring_of(keys, values);
        assert forall|v: u64| cur.contains(v) implies keys.contains(v) && count_val(values, v)
            >= 2 by {
            let i = choose|i: int| 0 <= i < cur.len() && cur[i] == v;
            if i < rest.len() {
                assert(rest[i] == v);
                assert(rest.contains(v));
                assert(keys.drop_last().contains(v));
                let j = choose|j: int| 0 <= j < keys.drop_last().len() && keys.drop_last()[j] == v;
                assert(keys[j] == v);
            } else {
                assert(keys[keys.len() - 1] == v);
            }
        }
        assert forall|v: u64| keys.contains(v) && count_val(values, v) >= 2 implies cur.contains(
            v,
        ) by {
            let i = choose|i: int| 0 <= i < keys.len() && keys[i] == v;
            if i < keys.len() - 1 {
                assert(keys.drop_last()[i] == v);
                assert(rest.contains(v));
                let j = choose|j: int| 0 <= j < rest.len() && rest[j] == v;
                assert(cur[j] == v);
            } else {
                assert(cur[cur.len() - 1] == v);
            }
        }
        if count_val(values, keys.last()) >= 2 {
            assert(!rest.contains(keys.last())) by {
                if rest.contains(keys.last()) {
                    assert(keys.drop_last().contains(keys.last()));
                    let j = choose|j: int|
                        0 <= j < keys.drop_last().len() && keys.drop_last()[j] == keys.last();
                    assert(keys[j] == keys[keys.len() - 1]);
                }
            }
            assert forall|i: int, j: int|
                0 <= i < j < cur.len() implies #[trigger] cur[i] != #[trigger] cur[j] by {
                assert(cur[i] == rest[i]);
                if j < rest.len() {
                    assert(cur[j] == rest[j]);
                } else {
                    if cur[i] == cur[j] {
                        assert(rest[i] == keys.last());
                        assert(rest.contains(keys.last()));
                    }
                }
            }
        }
    }
}

/// The keys of a frequency table whose recorded count is at least two, in
/// table order.
pub open spec fn recurring_keys(entries: Seq<(u64, usize)>) -> Seq<u64>
    decreases entries.len(),
{
    if entries.len() == 0 {
        Seq::empty()
    } else {
        let rest = recurring_keys(entries.drop_last());
        if entries.last().1 >= 2 {
            rest.push(entries.last().0)
        } else {
            rest
        }
    }
}

/// When a table records for each key its occurrence count in `values`,
/// filtering the table by recorded count filters the keys by true count.
pub proof fn lemma_recurring_keys_counts(entries: Seq<(u64, usize)>, values: Seq<u64>)
    requires
        forall|i: int|
            0 <= i < entries.len() ==> (#[trigger] entries[i]).1 == count_val(
                values,
                entries[i].0,
            ),
    ensures
        recurring_keys(entries) == recurring_of(keys_of(entries), values),
    decreases entries.len(),
{
    if entries.len() == 0 {
        assert(keys_of(entries) =~= Seq::<u64>::empty());
    } else {
        assert forall|i: int|
            0 <= i < entries.drop_last().len() implies (#[trigger] entries.drop_last()[i]).1
            == count_val(values, entries.drop_last()[i].0) by {
            assert(entries.drop_last()[i] == entries[i]);
        }
        lemma_recurring_keys_counts(entries.drop_last(), values);
        assert(keys_of(entries).drop_last() =~= keys_of(entries.drop_last()));
        assert(keys_of(entries).last() == entries.last().0);
        assert(keys_of(entries).len() == entries.len());
        assert(entries[entries.len() - 1].1 == count_val(values, entries.last().0));
    }
}

/// The addresses that survive sampling: the nonzero word values in first-
/// occurrence order, restricted to values occurring more than once, then
/// capped.
pub open spec fn sampled_addresses(b: Seq<u8>, size: Size, e: Endian, cap: nat) -> Seq<u64> {
    let values = nonzero_words(b, size.spec_word_bytes(), e);
    let recurring = recurring_of(firsts(values), values);
    if recurring.len() <= cap {
        recurring
    } else {
        recurring.take(cap as int)
    }
}

/// Decodes the word of `size.word_bytes()` bytes at byte position `pos`.
pub fn read_word(bytes: &[u8], pos: usize, size: Size, endian: Endian) -> (r: u64)
    requires
        pos + size.spec_word_bytes() <= bytes@.len(),
        bytes@.len() <= usize::MAX,
    ensures
        r == word_at(bytes@, size.spec_word_bytes(), endian, pos as int),
{
    let w = size.word_bytes();
    let ghost s = bytes@.subrange(pos as int, pos + size.spec_word_bytes());
    proof {
        lemma_pow256_word_bound();
    }
    let mut acc: u64 = 0;
    match endian {
        Endian::Little => {
            let mut j = w;
            while j > 0
                invariant
                    j <= w <= 8,
                    pos + w <= bytes@.len() <= usize::MAX,
                    s == bytes@.subrange(pos as int, pos + w),
                    acc == le_word_val(s.subrange(j as int, w as int)),
                    pow256(8) == 0x1_0000_0000_0000_0000,
                decreases j,
            {
                j -= 1;
                proof {
                    let tail = s.subrange(j as int, w as int);
                    assert(tail.drop_first() =~= s.subrange(j + 1, w as int));
                    assert(tail[0] == bytes@[pos + j]);
                    lemma_le_word_val_bound(s.subrange(j + 1, w as int));
                    lemma_pow256_mono(((w - j) as nat - 1) as nat, 7);
                    assert(pow256(7) * 256 == pow256(8));
                }
                acc = acc * 256 + bytes[pos + j] as u64;
            }
            proof {
                assert(s.subrange(0, w as int) =~= s);
                lemma_le_word_val_bound(s);
                lemma_pow256_mono(w as nat, 8);
            }
            acc
        },
        Endian::Big => {
            let mut i: usize = 0;
            while i < w
                invariant
                    i <= w <= 8,
                    pos + w <= bytes@.len() <= usize::MAX,
                    s == bytes@.subrange(pos as int, pos + w),
                    acc == be_word_val(s.subrange(0, i as int)),
                    pow256(8) == 0x1_0000_0000_0000_0000,
                decreases w - i,
            {
                proof {
                    let head = s.subrange(0, i + 1);
                    assert(head.drop_last() =~= s.subrange(0, i as int));
                    assert(head.last() == bytes@[pos + i]);
                    lemma_be_word_val_bound(s.subrange(0, i as int));
                    lemma_pow256_mono(i as nat, 7);
                    assert(pow256(7) * 256 == pow256(8));
                }
                acc = acc * 256 + bytes[pos + i] as u64;
                i += 1;
            }
            proof {
                assert(s.subrange(0, w as int) =~= s);
                lemma_be_word_val_bound(s);
                lemma_pow256_mono(w as nat, 8);
            }
            acc
        },
    }
}

/// The address index: the sampled recurring word values, and the same
/// values grouped into page-offset buckets. Built once by `new`, read-only
/// afterward.
pub struct Addresses {
    values: Vec<u64>,
    addresses: Vec<Vec<u64>>,
}

impl Addresses {
    /// The sampled recurring word values, in first-occurrence order.
    pub closed spec fn values_seq(&self) -> Seq<u64> {
        self.values@
    }

    /// The page-offset buckets.
    pub closed spec fn index_seq(&self) -> Seq<Seq<u64>> {
        Seq::new(self.addresses@.len() as nat, |k: int| self.addresses@[k]@)
    }

    /// The index is exactly the bucketing of the sampled values, which hold
    /// no duplicates.
    pub open spec fn wf(&self) -> bool {
        &&& self.values_seq().no_duplicates()
        &&& self.index_seq().len() == NUM_BUCKETS
        &&& forall|k: int|
            0 <= k < NUM_BUCKETS ==> self.index_seq()[k] == bucket_of(self.values_seq(), k as u64)
    }

    /// Decodes every whole word of the buffer and keeps the values that are
    /// not the all-zero word, in word order.
    pub fn read_addresses(bytes: &[u8], size: Size, endian: Endian) -> (r: Vec<u64>)
        ensures
            r@ == nonzero_words(bytes@, size.spec_word_bytes(), endian),
    {
        let w = size.word_bytes();
        let ghost wn = size.spec_word_bytes();
        let mut r: Vec<u64> = Vec::new();
        if bytes.len() < w {
            proof {
                assert(num_words(bytes@, wn) == 0) by (nonlinear_arith)
                    requires
                        bytes@.len() < wn,
                        4 <= wn <= 8,
                        num_words(bytes@, wn) == bytes@.len() as int / wn as int,
                ;
            }
            return r;
        }
        let mut k: usize = 0;
        let mut pos: usize = 0;
        while pos <= bytes.len() - w
            invariant
                4 <= w <= 8,
                w == wn,
                wn == size.spec_word_bytes(),
                w <= bytes@.len(),
                bytes@.len() <= usize::MAX,
                pos == k * w,
                pos <= bytes@.len(),
                r@ == nonzero_words_upto(bytes@, wn, endian, k as int),
            decreases bytes@.len() - pos,
        {
            let v = read_word(bytes, pos, size, endian);
            proof {
                assert(word_val(bytes@, wn, endian, k as int) == word_at(
                    bytes@,
                    wn,
                    endian,
                    pos as int,
                ));
            }
            if v != 0 {
                r.push(v);
            }
            proof {
                assert((k + 1) * w == k * w + w) by (nonlinear_arith);
                assert(4 * k <= pos) by (nonlinear_arith)
                    requires
                        pos == k * w,
                        w >= 4,
                        k >= 0,
                ;
            }
            k += 1;
            pos += w;
        }
        proof {
            assert(k as int == num_words(bytes@, wn)) by (nonlinear_arith)
                requires
                    4 <= wn <= 8,
                    k * wn <= bytes@.len(),
                    bytes@.len() < k * wn + wn,
                    num_words(bytes@, wn) == bytes@.len() as int / wn as int,
            ;
        }
        r
    }

    /// Tallies how often each decoded value occurs: a frequency table whose
    /// keys appear in first-occurrence order.
    pub fn get_address_frequencies(values: &Vec<u64>) -> (r: Vec<(u64, usize)>)
        ensures
            unique_keys(r@),
            keys_of(r@) == firsts(values@),
            forall|c: u64| lookup(r@, c) == count_val(values@, c),
    {
        let mut r: Vec<(u64, usize)> = Vec::new();
        let mut i: usize = 0;
        while i < values.len()
            invariant
                i <= values@.len(),
                unique_keys(r@),
                keys_of(r@) == firsts(values@.take(i as int)),
                forall|c: u64| lookup(r@, c) == count_val(values@.take(i as int), c),
            decreases values@.len() - i,
        {
            let v = values[i];
            proof {
                lemma_count_le_len(values@.take(i as int), v);
                assert(values@.take(i as int).len() == i);
            }
            bump_by(&mut r, v, 1);
            proof {
                assert(values@.take(i + 1).drop_last() =~= values@.take(i as int));
                assert(values@.take(i + 1).last() == values@[i as int]);
                assert forall|c: u64| lookup(r@, c) == count_val(values@.take(i + 1), c) by {}
            }
            i += 1;
        }
        proof {
            assert(values@.take(values@.len() as int) =~= values@);
        }
        r
    }

    /// Adds the counts of a second frequency table into a first: the
    /// reduction step that merges per-chunk tallies into a whole-buffer
    /// tally.
    pub fn collate_frequencies(first: Vec<(u64, usize)>, second: &Vec<(u64, usize)>) -> (r: Vec<
        (u64, usize),
    >)
        requires
            unique_keys(first@),
            unique_keys(second@),
            forall|c: u64| lookup(first@, c) + lookup(second@, c) <= usize::MAX,
        ensures
            unique_keys(r@),
            forall|c: u64| lookup(r@, c) == lookup(first@, c) + lookup(second@, c),
    {
        let mut r = first;
        let mut i: usize = 0;
        while i < second.len()
            invariant
                i <= second@.len(),
                unique_keys(second@),
                unique_keys(r@),
                forall|c: u64|
                    lookup(r@, c) == lookup(first@, c) + lookup(second@.take(i as int), c),
                forall|c: u64| lookup(first@, c) + lookup(second@, c) <= usize::MAX,
            decreases second@.len() - i,
        {
            let (key, cnt) = second[i];
            proof {
                lemma_lookup_present(second@, i as int);
                lemma_lookup_take_zero_before(second@, i as int);
                assert(lookup(second@.take(i as int), key) == 0);
                assert(lookup(r@, key) == lookup(first@, key));
            }
            if cnt > 0 {
                bump_by(&mut r, key, cnt);
            }
            proof {
                assert(second@.take(i + 1).drop_last() =~= second@.take(i as int));
                assert(second@.take(i + 1).last() == second@[i as int]);
                assert forall|c: u64|
                    lookup(r@, c) == lookup(first@, c) + lookup(second@.take(i + 1), c) by {}
            }
            i += 1;
        }
        proof {
            assert(second@.take(second@.len() as int) =~= second@);
        }
        r
    }

    /// The keys of the frequency table that occur more than once, in table
    /// order: a value occupying exactly one aligned slot is discarded as
    /// likely scalar data.
    pub fn get_unique_addresses(freqs: &Vec<(u64, usize)>) -> (r: Vec<u64>)
        ensures
            r@ == recurring_keys(freqs@),
    {
        let mut r: Vec<u64> = Vec::new();
        let mut i: usize = 0;
        while i < freqs.len()
            invariant
                i <= freqs@.len(),
                r@ == recurring_keys(freqs@.take(i as int)),
            decreases freqs@.len() - i,
        {
            let (key, cnt) = freqs[i];
            if cnt >= 2 {
                r.push(key);
            }
            proof {
                assert(freqs@.take(i + 1).drop_last() =~= freqs@.take(i as int));
                assert(freqs@.take(i + 1).last() == freqs@[i as int]);
            }
            i += 1;
        }
        proof {
            assert(freqs@.take(freqs@.len() as int) =~= freqs@);
        }
        r
    }

    /// Builds the index from retained values, capping the sample: the join
    /// step of a fork-join scan whose per-chunk frequency tables were merged
    /// by `collate_frequencies` and filtered by `get_unique_addresses`.
    pub fn from_values(values: Vec<u64>, max_addresses: usize) -> (r: Addresses)
        requires
            values@.no_duplicates(),
        ensures
            r.wf(),
            r.values_seq() == if values@.len() <= max_addresses {
                values@
            } else {
                values@.take(max_addresses as int)
            },
    {
        let ghost whole = values@;
        let mut values = values;
        if values.len() > max_addresses {
            values.truncate(max_addresses);
            proof {
                assert forall|i: int, j: int|
                    0 <= i < j < values@.len() implies values@[i] != values@[j] by {
                    assert(values@[i] == whole[i]);
                    assert(values@[j] == whole[j]);
                }
            }
        }
        let addresses = bucket_by_page_offset(&values);
        Addresses { values, addresses }
    }

    /// Scans the whole buffer for words, keeps the nonzero values that occur
    /// more than once, caps the sample at `max_addresses`, and indexes the
    /// survivors by page offset.
    pub fn new(bytes: &[u8], size: Size, endian: Endian, max_addresses: usize) -> (r: Addresses)
        ensures
            r.wf(),
            r.values_seq() == sampled_addresses(bytes@, size, endian, max_addresses as nat),
    {
        let all = Self::read_addresses(bytes, size, endian);
        let freqs = Self::get_address_frequencies(&all);
        let values = Self::get_unique_addresses(&freqs);
        proof {
            assert forall|i: int|
                0 <= i < freqs@.len() implies (#[trigger] freqs@[i]).1 == count_val(
                all@,
                freqs@[i].0,
            ) by {
                lemma_lookup_present(freqs@, i);
            }
            lemma_recurring_keys_counts(freqs@, all@);
            lemma_firsts_membership(all@);
            lemma_recurring_of_membership(firsts(all@), all@);
        }
        Self::from_values(values, max_addresses)
    }

    /// The page-offset bucket index.
    pub fn get_addresses(&self) -> (r: &Vec<Vec<u64>>)
        requires
            self.wf(),
        ensures
            r@.len() == NUM_BUCKETS,
            forall|k: int|
                0 <= k < NUM_BUCKETS ==> #[trigger] r@[k]@ == bucket_of(
                    self.values_seq(),
                    k as u64,
                ),
    {
        proof {
            assert forall|k: int| 0 <= k < NUM_BUCKETS implies #[trigger] self.addresses@[k]@
                == bucket_of(self.values_seq(), k as u64) by {
                assert(self.index_seq()[k] == bucket_of(self.values_seq(), k as u64));
            }
        }
        &self.addresses
    }

    /// The sampled recurring word values, in first-occurrence order.
    pub fn values(&self) -> (r: &Vec<u64>)
        ensures
            r@ == self.values_seq(),
    {
        &self.values
    }
}

/// A word value occurring exactly once in the buffer, or the all-zero word,
/// never enters the sampled addresses, so it never appears in the address
/// index.
pub proof fn lemma_single_occurrence_excluded(
    b: Seq<u8>,
    size: Size,
    e: Endian,
    cap: nat,
    v: u64,
)
    requires
        v == 0 || word_count(b, size.spec_word_bytes(), e, v, num_words(b, size.spec_word_bytes()))
            <= 1,
    ensures
        !sampled_addresses(b, size, e, cap).contains(v),
        forall|k: u64| !bucket_of(sampled_addresses(b, size, e, cap), k).contains(v),
{
    assert forall|k: u64| !bucket_of(sampled_addresses(b, size, e, cap), k).contains(v) by {
        crate::buckets::lemma_bucket_of_membership(sampled_addresses(b, size, e, cap), k);
        lemma_sampled_excludes(b, size, e, cap, v);
    }
    lemma_sampled_excludes(b, size, e, cap, v);
}

proof fn lemma_sampled_excludes(b: Seq<u8>, size: Size, e: Endian, cap: nat, v: u64)
    requires
        v == 0 || word_count(b, size.spec_word_bytes(), e, v, num_words(b, size.spec_word_bytes()))
            <= 1,
    ensures
        !sampled_addresses(b, size, e, cap).contains(v),
{
    let w = size.spec_word_bytes();
    let values = nonzero_words(b, w, e);
    let recurring = recurring_of(firsts(values), values);
    lemma_firsts_membership(values);
    lemma_recurring_of_membership(firsts(values), values);
    let sampled = sampled_addresses(b, size, e, cap);
    if sampled.contains(v) {
        let i = choose|i: int| 0 <= i < sampled.len() && sampled[i] == v;
        assert(recurring[i] == v);
        assert(recurring.contains(v));
        assert(count_val(values, v) >= 2);
        if v == 0 {
            lemma_nonzero_words_no_zero(b, w, e, num_words(b, w));
            lemma_count_contains(values, v);
        } else {
            lemma_nonzero_count(b, w, e, v, num_words(b, w));
        }
    }
}

/// A buffer shorter than one word holds no word at all: a degenerate
/// input, not an error.
pub proof fn lemma_short_buffer_no_words(b: Seq<u8>, w: nat, e: Endian)
    requires
        b.len() < w,
        w >= 1,
    ensures
        nonzero_words(b, w, e) == Seq::<u64>::empty(),
{
    assert(num_words(b, w) == 0) by (nonlinear_arith)
        requires
            b.len() < w,
            w >= 1,
            num_words(b, w) == b.len() as int / w as int,
    ;
    assert(nonzero_words_upto(b, w, e, 0) =~= Seq::<u64>::empty());
}

/// A value counted at least once is contained in the sequence.
pub proof fn lemma_count_contains(s: Seq<u64>, v: u64)
    requires
        count_val(s, v) >= 1,
    ensures
        s.contains(v),
    decreases s.len(),
{
    if s.len() > 0 {
        if s.last() == v {
            assert(s[s.len() - 1] == v);
        } else {
            lemma_count_contains(s.drop_last(), v);
            let i = choose|i: int| 0 <= i < s.drop_last().len() && s.drop_last()[i] == v;
            assert(s[i] == v);
        }
    }
}

/// Counts recorded for keys not yet reached are still zero: among the first
/// `i` entries of a table with distinct keys, key `i` is absent.
proof fn lemma_lookup_take_zero_before(entries: Seq<(u64, usize)>, i: int)
    requires
        unique_keys(entries),
        0 <= i < entries.len(),
    ensures
        lookup(entries.take(i), entries[i].0) == 0,
{
    assert forall|j: int| 0 <= j < entries.take(i).len() implies (#[trigger] entries.take(
        i,
    )[j]).0 != entries[i].0 by {
        assert(entries.take(i)[j] == entries[j]);
    }
    crate::counts::lemma_lookup_absent(entries.take(i), entries[i].0);
}

} // verus!
