//! The string locator: finds every maximal run of printable-class bytes whose
//! length lies within the configured bounds and which is terminated by a NUL
//! byte, records the file offset of each such run, caps the sample, and
//! indexes the surviving offsets by page offset.

use vstd::prelude::*;

use crate::buckets::bucket_by_page_offset;
use crate::buckets::bucket_of;
use crate::config::Args;
use crate::NUM_BUCKETS;

verus! {

/// The printable class a program string is made of: ASCII letters, digits
/// and underscore.
pub open spec fn is_printable_byte(b: u8) -> bool {
    ||| 0x61 <= b <= 0x7A  // 'a' ..= 'z'
    ||| 0x41 <= b <= 0x5A  // 'A' ..= 'Z'
    ||| 0x30 <= b <= 0x39  // '0' ..= '9'
    ||| b == 0x5F  // '_'
}

/// Length of the maximal printable-class run starting at `o`.
pub open spec fn run_len(b: Seq<u8>, o: int) -> nat
    decreases b.len() - o
        when 0 <= o <= b.len()
{
    if o < b.len() && is_printable_byte(b[o]) {
        1 + run_len(b, o + 1)
    } else {
        0
    }
}

/// Whether a candidate string starts at offset `o`: the maximal printable
/// run starting there cannot be extended to the left, has a length within
/// the configured bounds, and is immediately followed by a NUL terminator.
pub open spec fn is_string_start(b: Seq<u8>, min_len: nat, max_len: nat, o: int) -> bool {
    &&& 0 <= o < b.len()
    &&& (o == 0 || !is_printable_byte(b[o - 1]))
    &&& min_len <= run_len(b, o) <= max_len
    &&& o + run_len(b, o) < b.len()
    &&& b[o + run_len(b, o)] == 0
}

/// The offsets of every candidate string starting in `[lo, hi)`, in
/// ascending order.
pub open spec fn string_starts_between(
    b: Seq<u8>,
    min_len: nat,
    max_len: nat,
    lo: int,
    hi: int,
) -> Seq<u64>
    decreases hi - lo,
{
    if lo >= hi {
        Seq::empty()
    } else {
        let rest = string_starts_between(b, min_len, max_len, lo, hi - 1);
        if is_string_start(b, min_len, max_len, hi - 1) {
            rest.push((hi - 1) as u64)
        } else {
            rest
        }
    }
}

/// The offsets of every candidate string in the whole buffer, ascending.
pub open spec fn string_starts(b: Seq<u8>, min_len: nat, max_len: nat) -> Seq<u64> {
    string_starts_between(b, min_len, max_len, 0, b.len() as int)
}

/// The string offsets that survive the sampling cap: the first `cap` of
/// them, in ascending order.
pub open spec fn sampled_strings(b: Seq<u8>, min_len: nat, max_len: nat, cap: nat) -> Seq<u64> {
    let all = string_starts(b, min_len, max_len);
    if all.len() <= cap {
        all
    } else {
        all.take(cap as int)
    }
}

/// The located offsets lie in `[lo, hi)` and are strictly increasing, so in
/// particular the sequence holds no duplicates.
pub proof fn lemma_string_starts_between_increasing(
    b: Seq<u8>,
    min_len: nat,
    max_len: nat,
    lo: int,
    hi: int,
)
    requires
        hi - 1 <= u64::MAX,
    ensures
        forall|i: int|
            0 <= i < string_starts_between(b, min_len, max_len, lo, hi).len() ==> lo <= (
            #[trigger] string_starts_between(b, min_len, max_len, lo, hi)[i]) < hi,
        forall|i: int, j: int|
            0 <= i < j < string_starts_between(b, min_len, max_len, lo, hi).len()
                ==> string_starts_between(b, min_len, max_len, lo, hi)[i]
                < string_starts_between(b, min_len, max_len, lo, hi)[j],
    decreases hi - lo,
{
    if lo < hi {
        lemma_string_starts_between_increasing(b, min_len, max_len, lo, hi - 1);
        let rest = string_starts_between(b, min_len, max_len, lo, hi - 1);
        let cur = string_starts_between(b, min_len, max_len, lo, hi);
        assert forall|i: int| 0 <= i < cur.len() implies lo <= #[trigger] cur[i] < hi by {
            if i < rest.len() {
                assert(cur[i] == rest[i]);
            }
        }
        assert forall|i: int, j: int| 0 <= i < j < cur.len() implies #[trigger] cur[i] < #[trigger] cur[j] by {
            assert(cur[i] == rest[i]);
            if j < rest.len() {
                assert(cur[j] == rest[j]);
            }
        }
    }
}

/// A located offset is a string start, and every string start in the range
/// is located.
pub proof fn lemma_string_starts_between_membership(
    b: Seq<u8>,
    min_len: nat,
    max_len: nat,
    lo: int,
    hi: int,
)
    requires
        hi - 1 <= u64::MAX,
    ensures
        forall|i: int|
            0 <= i < string_starts_between(b, min_len, max_len, lo, hi).len() ==> is_string_start(
                b,
                min_len,
                max_len,
                #[trigger] string_starts_between(b, min_len, max_len, lo, hi)[i] as int,
            ),
        forall|o: int|
            lo <= o < hi && #[trigger] is_string_start(b, min_len, max_len, o)
                ==> string_starts_between(b, min_len, max_len, lo, hi).contains(o as u64),
    decreases hi - lo,
{
    if lo < hi {
        lemma_string_starts_between_membership(b, min_len, max_len, lo, hi - 1);
        let rest = string_starts_between(b, min_len, max_len, lo, hi - 1);
        let cur = string_starts_between(b, min_len, max_len, lo, hi);
        assert forall|i: int| 0 <= i < cur.len() implies is_string_start(
            b,
            min_len,
            max_len,
            cur[i] as int,
        ) by {
            if i < rest.len() {
                assert(cur[i] == rest[i]);
            } else {
                assert(cur[i] == (hi - 1) as u64);
            }
        }
        assert forall|o: int| lo <= o < hi && is_string_start(b, min_len, max_len, o) implies cur
            .contains(o as u64) by {
            if o == hi - 1 {
                assert(cur[cur.len() - 1] == o as u64);
            } else {
                assert(rest.contains(o as u64));
                let i = choose|i: int| 0 <= i < rest.len() && rest[i] == o as u64;
                assert(cur[i] == o as u64);
            }
        }
    }
}

/// Scanning two adjacent ranges finds exactly what scanning their union
/// finds: partitioning the buffer for a fork-join scan loses no string and
/// counts none twice.
pub proof fn lemma_string_starts_between_concat(
    b: Seq<u8>,
    min_len: nat,
    max_len: nat,
    lo: int,
    mid: int,
    hi: int,
)
    requires
        lo <= mid <= hi,
    ensures
        string_starts_between(b, min_len, max_len, lo, mid) + string_starts_between(
            b,
            min_len,
            max_len,
            mid,
            hi,
        ) == string_starts_between(b, min_len, max_len, lo, hi),
    decreases hi - mid,
{
    if mid == hi {
        assert(string_starts_between(b, min_len, max_len, mid, hi) =~= Seq::<u64>::empty());
        assert(string_starts_between(b, min_len, max_len, lo, mid) + Seq::<u64>::empty()
            =~= string_starts_between(b, min_len, max_len, lo, mid));
    } else {
        lemma_string_starts_between_concat(b, min_len, max_len, lo, mid, hi - 1);
        let left = string_starts_between(b, min_len, max_len, lo, mid);
        let right = string_starts_between(b, min_len, max_len, mid, hi);
        let right_head = string_starts_between(b, min_len, max_len, mid, hi - 1);
        if is_string_start(b, min_len, max_len, hi - 1) {
            assert(left + right =~= (left + right_head).push((hi - 1) as u64));
        }
    }
}

/// A buffer no longer than the minimum string length holds no candidate
/// string at all: a degenerate input, not an error.
pub proof fn lemma_short_buffer_no_strings(b: Seq<u8>, min_len: nat, max_len: nat)
    requires
        b.len() <= min_len,
    ensures
        string_starts(b, min_len, max_len) == Seq::<u64>::empty(),
{
    lemma_short_buffer_between(b, min_len, max_len, b.len() as int);
}

proof fn lemma_short_buffer_between(b: Seq<u8>, min_len: nat, max_len: nat, hi: int)
    requires
        b.len() <= min_len,
    ensures
        string_starts_between(b, min_len, max_len, 0, hi) == Seq::<u64>::empty(),
    decreases hi,
{
    if hi > 0 {
        lemma_short_buffer_between(b, min_len, max_len, hi - 1);
        assert(!is_string_start(b, min_len, max_len, hi - 1));
    } else {
        assert(string_starts_between(b, min_len, max_len, 0, hi) =~= Seq::<u64>::empty());
    }
}

/// Where the end of a chunk falls: `overlap` bytes past the nominal chunk,
/// clipped to the buffer.
pub open spec fn spec_chunk_end(start: int, chunk_size: int, overlap: int, len: int) -> int {
    if start + chunk_size + overlap > len {
        len
    } else {
        start + chunk_size + overlap
    }
}

/// Whether `b` belongs to the printable class.
pub fn is_printable(b: u8) -> (r: bool)
    ensures
        r == is_printable_byte(b),
{
    (0x61 <= b && b <= 0x7A) || (0x41 <= b && b <= 0x5A) || (0x30 <= b && b <= 0x39) || b == 0x5F
}

/// Length of the maximal printable-class run starting at `o`.
pub fn run_length_at(bytes: &[u8], o: usize) -> (r: usize)
    requires
        o <= bytes@.len(),
    ensures
        r == run_len(bytes@, o as int),
        o + r <= bytes@.len(),
{
    let mut j = o;
    while j < bytes.len() && is_printable(bytes[j])
        invariant
            o <= j <= bytes@.len(),
            run_len(bytes@, o as int) == (j - o) + run_len(bytes@, j as int),
        decreases bytes@.len() - j,
    {
        j += 1;
    }
    j - o
}

/// Finds every candidate string whose first byte lies in `[lo, hi)`,
/// returning the offsets in ascending order. The scan may read bytes at and
/// beyond `hi` to measure a run and to see its terminator, so splitting the
/// buffer into ranges and scanning each one finds boundary-straddling
/// strings whole.
pub fn find_string_addresses_in_chunk(
    bytes: &[u8],
    lo: usize,
    hi: usize,
    min_len: usize,
    max_len: usize,
) -> (r: Vec<u64>)
    requires
        lo <= hi <= bytes@.len(),
    ensures
        r@ == string_starts_between(bytes@, min_len as nat, max_len as nat, lo as int, hi as int),
{
    let mut r: Vec<u64> = Vec::new();
    let mut o = lo;
    while o < hi
        invariant
            lo <= o <= hi <= bytes@.len(),
            r@ == string_starts_between(bytes@, min_len as nat, max_len as nat, lo as int, o as int),
        decreases hi - o,
    {
        let left_maximal = o == 0 || !is_printable(bytes[o - 1]);
        if left_maximal {
            let rl = run_length_at(bytes, o);
            if min_len <= rl && rl <= max_len && o + rl < bytes.len() && bytes[o + rl] == 0 {
                r.push(o as u64);
            }
        }
        o += 1;
    }
    r
}

/// The string index: every sampled string offset, and the same offsets
/// grouped into page-offset buckets. Built once by `new`, read-only
/// afterward.
pub struct Strings {
    offsets: Vec<u64>,
    index: Vec<Vec<u64>>,
}

impl Strings {
    /// Splits `[0, len)` into chunks of `chunk_size` starting positions
    /// each, every chunk extended `overlap` bytes into the next so that a
    /// scan confined to one extended chunk still sees a boundary-straddling
    /// string whole; the last chunk is clipped to the buffer end.
    pub fn get_overlapping_chunks(len: usize, chunk_size: usize, overlap: usize) -> (r: Vec<
        (usize, usize),
    >)
        requires
            chunk_size >= 1,
            len + chunk_size + overlap <= usize::MAX,
        ensures
            forall|j: int|
                0 <= j < r@.len() ==> (#[trigger] r@[j]).0 == j * chunk_size && r@[j].1
                    == spec_chunk_end(
                    j * chunk_size,
                    chunk_size as int,
                    overlap as int,
                    len as int,
                ),
            len == 0 ==> r@.len() == 0,
            len > 0 ==> r@.len() >= 1 && (r@.len() - 1) * chunk_size < len && len <= r@.len()
                * chunk_size,
    {
        let mut r: Vec<(usize, usize)> = Vec::new();
        let mut start: usize = 0;
        proof {
            assert(r@.len() * chunk_size == 0) by (nonlinear_arith)
                requires
                    r@.len() == 0,
            ;
        }
        while start < len
            invariant
                chunk_size >= 1,
                len + chunk_size + overlap <= usize::MAX,
                start == r@.len() * chunk_size,
                r@.len() >= 1 ==> (r@.len() - 1) * chunk_size < len,
                forall|j: int|
                    0 <= j < r@.len() ==> (#[trigger] r@[j]).0 == j * chunk_size && r@[j].1
                        == spec_chunk_end(
                        j * chunk_size,
                        chunk_size as int,
                        overlap as int,
                        len as int,
                    ),
            decreases len + chunk_size - start,
        {
            let extended = start + chunk_size + overlap;
            let end = if extended > len {
                len
            } else {
                extended
            };
            r.push((start, end));
            proof {
                assert((r@.len() - 1) * chunk_size == (r@.len() - 1) * chunk_size);
                assert(r@.len() * chunk_size == (r@.len() - 1) * chunk_size + chunk_size)
                    by (nonlinear_arith);
            }
            start += chunk_size;
        }
        r
    }

    /// The sampled string offsets, in ascending order.
    pub closed spec fn offsets_seq(&self) -> Seq<u64> {
        self.offsets@
    }

    /// The page-offset buckets.
    pub closed spec fn index_seq(&self) -> Seq<Seq<u64>> {
        Seq::new(self.index@.len() as nat, |k: int| self.index@[k]@)
    }

    /// The index is exactly the bucketing of the sampled offsets, which hold
    /// no duplicates.
    pub open spec fn wf(&self) -> bool {
        &&& self.offsets_seq().no_duplicates()
        &&& self.index_seq().len() == NUM_BUCKETS
        &&& forall|k: int|
            0 <= k < NUM_BUCKETS ==> self.index_seq()[k] == bucket_of(self.offsets_seq(), k as u64)
    }

    /// Builds the index from offsets already located, capping the sample:
    /// the join step of a fork-join scan whose chunks were scanned by
    /// `find_string_addresses_in_chunk` and concatenated in chunk order.
    pub fn from_offsets(offsets: Vec<u64>, max_strings: usize) -> (r: Strings)
        requires
            offsets@.no_duplicates(),
        ensures
            r.wf(),
            r.offsets_seq() == if offsets@.len() <= max_strings {
                offsets@
            } else {
                offsets@.take(max_strings as int)
            },
    {
        let ghost whole = offsets@;
        let mut offsets = offsets;
        if offsets.len() > max_strings {
            offsets.truncate(max_strings);
            proof {
                assert forall|i: int, j: int|
                    0 <= i < j < offsets@.len() implies offsets@[i] != offsets@[j] by {
                    assert(offsets@[i] == whole[i]);
                    assert(offsets@[j] == whole[j]);
                }
            }
        }
        let index = bucket_by_page_offset(&offsets);
        Strings { offsets, index }
    }

    /// Scans the whole buffer for candidate strings, caps the sample at
    /// `args.max_strings`, and indexes the survivors by page offset.
    pub fn new(args: &Args, bytes: &[u8]) -> (r: Strings)
        requires
            args.valid(),
        ensures
            r.wf(),
            r.offsets_seq() == sampled_strings(
                bytes@,
                args.min_string_length as nat,
                args.max_string_length as nat,
                args.max_strings as nat,
            ),
    {
        let offsets = find_string_addresses_in_chunk(
            bytes,
            0,
            bytes.len(),
            args.min_string_length,
            args.max_string_length,
        );
        proof {
            lemma_string_starts_between_increasing(
                bytes@,
                args.min_string_length as nat,
                args.max_string_length as nat,
                0,
                bytes@.len() as int,
            );
        }
        Self::from_offsets(offsets, args.max_strings)
    }

    /// The bucket of sampled string offsets under page key `k`, or `None`
    /// when no sampled offset has that key.
    pub fn get(&self, k: u64) -> (r: Option<&Vec<u64>>)
        requires
            self.wf(),
        ensures
            match r {
                Some(v) => k < NUM_BUCKETS && v@ == bucket_of(self.offsets_seq(), k) && v@.len()
                    > 0,
                None => k >= NUM_BUCKETS || bucket_of(self.offsets_seq(), k).len() == 0,
            },
    {
        if k < NUM_BUCKETS as u64 {
            proof {
                assert(self.index_seq()[k as int] == bucket_of(self.offsets_seq(), k as u64));
                assert(self.index@.len() == NUM_BUCKETS);
            }
            let bucket = &self.index[k as usize];
            if bucket.len() > 0 {
                Some(bucket)
            } else {
                None
            }
        } else {
            None
        }
    }

    /// The sampled string offsets, in ascending order.
    pub fn offsets(&self) -> (r: &Vec<u64>)
        ensures
            r@ == self.offsets_seq(),
    {
        &self.offsets
    }
}

} // verus!
