//! A small verified counter table: a vector of (key, count) entries with
//! pairwise-distinct keys. Both the word-frequency map of the address
//! locator and the candidate tally of the base voter are tables of this
//! shape, filled by "increment or insert" updates.

use vstd::prelude::*;

verus! {

/// The keys of a counter table, in entry order.
pub open spec fn keys_of(entries: Seq<(u64, usize)>) -> Seq<u64> {
    entries.map_values(|e: (u64, usize)| e.0)
}

/// No two entries share a key.
pub open spec fn unique_keys(entries: Seq<(u64, usize)>) -> bool {
    forall|i: int, j: int|
        0 <= i < j < entries.len() ==> (#[trigger] entries[i]).0 != (#[trigger] entries[j]).0
}

/// The count recorded for `c`, or zero when no entry carries `c`.
pub open spec fn lookup(entries: Seq<(u64, usize)>, c: u64) -> nat
    decreases entries.len(),
{
    if entries.len() == 0 {
        0
    } else if entries.last().0 == c {
        entries.last().1 as nat
    } else {
        lookup(entries.drop_last(), c)
    }
}

/// When no entry carries `c`, the lookup is zero.
pub proof fn lemma_lookup_absent(entries: Seq<(u64, usize)>, c: u64)
    requires
        forall|i: int| 0 <= i < entries.len() ==> (#[trigger] entries[i]).0 != c,
    ensures
        lookup(entries, c) == 0,
    decreases entries.len(),
{
    if entries.len() > 0 {
        lemma_lookup_absent(entries.drop_last(), c);
    }
}

/// With distinct keys, the lookup of an entry's key is that entry's count.
pub proof fn lemma_lookup_present(entries: Seq<(u64, usize)>, i: int)
    requires
        unique_keys(entries),
        0 <= i < entries.len(),
    ensures
        lookup(entries, entries[i].0) == entries[i].1,
    decreases entries.len(),
{
    if i == entries.len() - 1 {
    } else {
        assert(entries.drop_last()[i] == entries[i]);
        lemma_lookup_present(entries.drop_last(), i);
    }
}

/// Updating the count stored at entry `i` changes only the lookup of that
/// entry's key.
pub proof fn lemma_lookup_update(entries: Seq<(u64, usize)>, i: int, n: usize)
    requires
        unique_keys(entries),
        0 <= i < entries.len(),
    ensures
        lookup(entries.update(i, (entries[i].0, n)), entries[i].0) == n,
        forall|c: u64|
            c != entries[i].0 ==> lookup(entries.update(i, (entries[i].0, n)), c) == lookup(
                entries,
                c,
            ),
        unique_keys(entries.update(i, (entries[i].0, n))),
        keys_of(entries.update(i, (entries[i].0, n))) == keys_of(entries),
    decreases entries.len(),
{
    let u = entries.update(i, (entries[i].0, n));
    assert(keys_of(u) =~= keys_of(entries));
    assert forall|p: int| 0 <= p < u.len() implies (#[trigger] u[p]).0 == entries[p].0 by {}
    assert(unique_keys(u));
    if i == entries.len() - 1 {
        assert(u.drop_last() =~= entries.drop_last());
    } else {
        assert(u.last() == entries.last());
        assert(u.drop_last() =~= entries.drop_last().update(i, (entries[i].0, n)));
        assert(entries.drop_last()[i] == entries[i]);
        assert(unique_keys(entries.drop_last())) by {
            assert forall|p: int, q: int|
                0 <= p < q < entries.drop_last().len() implies (#[trigger] entries.drop_last()[p]).0
                != (#[trigger] entries.drop_last()[q]).0 by {
                assert(entries.drop_last()[p] == entries[p]);
                assert(entries.drop_last()[q] == entries[q]);
            }
        }
        lemma_lookup_update(entries.drop_last(), i, n);
        assert(entries[i].0 != entries.last().0);
        assert forall|c: u64| c != entries[i].0 implies lookup(u, c) == lookup(entries, c) by {
            if entries.last().0 == c {
                assert(lookup(u, c) == u.last().1);
                assert(lookup(entries, c) == entries.last().1);
            } else {
                assert(u.last().0 != c);
                assert(lookup(u, c) == lookup(u.drop_last(), c));
                assert(lookup(entries, c) == lookup(entries.drop_last(), c));
                assert(u.drop_last() == entries.drop_last().update(
                    i,
                    (entries.drop_last()[i].0, n),
                ));
                assert(lookup(entries.drop_last().update(i, (entries.drop_last()[i].0, n)), c)
                    == lookup(entries.drop_last(), c));
            }
        }
    }
}

/// Appending an entry with a fresh key sets its lookup and keeps the others.
pub proof fn lemma_lookup_push(entries: Seq<(u64, usize)>, c: u64, n: usize)
    ensures
        lookup(entries.push((c, n)), c) == n,
        forall|c2: u64| c2 != c ==> lookup(entries.push((c, n)), c2) == lookup(entries, c2),
        keys_of(entries.push((c, n))) == keys_of(entries).push(c),
{
    let p = entries.push((c, n));
    assert(p.drop_last() =~= entries);
    assert(keys_of(p) =~= keys_of(entries).push(c));
}

/// A nonzero lookup means some entry carries the key.
pub proof fn lemma_lookup_nonzero_present(entries: Seq<(u64, usize)>, c: u64)
    requires
        lookup(entries, c) != 0,
    ensures
        exists|i: int| 0 <= i < entries.len() && (#[trigger] entries[i]).0 == c,
    decreases entries.len(),
{
    if entries.len() > 0 {
        if entries.last().0 == c {
            assert(entries[entries.len() - 1].0 == c);
        } else {
            lemma_lookup_nonzero_present(entries.drop_last(), c);
            let i = choose|i: int|
                0 <= i < entries.drop_last().len() && (#[trigger] entries.drop_last()[i]).0 == c;
            assert(entries[i].0 == c);
        }
    }
}

/// Finds the entry holding key `c`, if any.
pub fn find_key(entries: &Vec<(u64, usize)>, c: u64) -> (r: Option<usize>)
    ensures
        match r {
            Some(i) => i < entries@.len() && entries@[i as int].0 == c,
            None => forall|i: int| 0 <= i < entries@.len() ==> (#[trigger] entries@[i]).0 != c,
        },
{
    let mut i: usize = 0;
    while i < entries.len()
        invariant
            i <= entries@.len(),
            forall|j: int| 0 <= j < i ==> (#[trigger] entries@[j]).0 != c,
        decreases entries@.len() - i,
    {
        if entries[i].0 == c {
            return Some(i);
        }
        i += 1;
    }
    None
}

/// Adds `n` to the count recorded for `c`, inserting the entry if absent:
/// the "increment or insert" update both accumulation maps are built from.
pub fn bump_by(entries: &mut Vec<(u64, usize)>, c: u64, n: usize)
    requires
        unique_keys(old(entries)@),
        lookup(old(entries)@, c) + n <= usize::MAX,
        n >= 1,
    ensures
        unique_keys(final(entries)@),
        lookup(final(entries)@, c) == lookup(old(entries)@, c) + n,
        forall|c2: u64| c2 != c ==> lookup(final(entries)@, c2) == lookup(old(entries)@, c2),
        keys_of(final(entries)@) == if keys_of(old(entries)@).contains(c) {
            keys_of(old(entries)@)
        } else {
            keys_of(old(entries)@).push(c)
        },
{
    match find_key(entries, c) {
        Some(i) => {
            proof {
                lemma_lookup_present(entries@, i as int);
            }
            let cur = entries[i].1;
            entries[i] = (c, cur + n);
            proof {
                lemma_lookup_update(old(entries)@, i as int, (cur + n) as usize);
                assert(keys_of(old(entries)@)[i as int] == c);
            }
        },
        None => {
            proof {
                lemma_lookup_absent(entries@, c);
                lemma_lookup_push(entries@, c, n);
                if keys_of(entries@).contains(c) {
                    let i = choose|i: int|
                        0 <= i < keys_of(entries@).len() && keys_of(entries@)[i] == c;
                    assert(entries@[i].0 == c);
                }
            }
            entries.push((c, n));
        },
    }
}

} // verus!
