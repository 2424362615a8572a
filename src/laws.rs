//! Properties of the hash and of the table, stated over their models.

use vstd::prelude::*;
use vstd::string::StringSliceAdditionalSpecFns;
use crate::hash::djb2_of;
use crate::table::{
    bucket_entries, bucket_of, find_first, lemma_find_first_push, HashTable, HASH_SIZE,
};

verus! {

/// Equal strings hash to the same value and so to the same bucket: the hash
/// depends on the key alone.
pub proof fn lemma_hash_deterministic(a: &str, b: &str)
    requires
        a@ == b@,
    ensures
        djb2_of(a.spec_bytes()) == djb2_of(b.spec_bytes()),
        bucket_of(a@) == bucket_of(b@),
{
}

/// Every key's bucket is a valid bucket index.
pub proof fn lemma_bucket_in_range(k: Seq<char>)
    ensures
        0 <= bucket_of(k) < HASH_SIZE,
{
}

/// A key that no entry has is not found.
pub proof fn lemma_miss<T>(entries: Seq<(Seq<char>, T)>, k: Seq<char>)
    requires
        forall|i: int| 0 <= i < entries.len() ==> #[trigger] entries[i].0 != k,
    ensures
        find_first(entries, k) is None,
    decreases entries.len(),
{
    if entries.len() > 0 {
        assert forall|i: int| 0 <= i < entries.drop_first().len() implies
            #[trigger] entries.drop_first()[i].0 != k by {
            assert(entries.drop_first()[i] == entries[i + 1]);
        }
        lemma_miss(entries.drop_first(), k);
    }
}

/// Searching a table for a key that was never inserted finds nothing.
pub proof fn lemma_search_miss<T>(t: HashTable<'_, T>, k: Seq<char>)
    requires
        forall|i: int| 0 <= i < t@.len() ==> #[trigger] t@[i].0 != k,
    ensures
        find_first(t@, k) is None,
{
    lemma_miss(t@, k);
}

/// Once a key is found in a prefix, what follows does not change the result.
pub proof fn lemma_find_first_append<T>(s: Seq<(Seq<char>, T)>, t: Seq<(Seq<char>, T)>, k: Seq<char>)
    requires
        find_first(s, k) is Some,
    ensures
        find_first(s + t, k) == find_first(s, k),
    decreases t.len(),
{
    if t.len() == 0 {
        assert(s + t =~= s);
    } else {
        let rest = t.drop_last();
        assert(s + t =~= (s + rest).push(t.last()));
        lemma_find_first_append(s, rest, k);
        lemma_find_first_push(s + rest, t.last(), k);
    }
}

/// Inserting a key that the table does not hold (for instance into an empty
/// table) and then searching for it yields the inserted value.
pub proof fn lemma_insert_then_search<T>(before: HashTable<'_, T>, after: HashTable<'_, T>, k: Seq<char>, v: T)
    requires
        find_first(before@, k) is None,
        after@ == before@.push((k, v)),
    ensures
        find_first(after@, k) == Some(v),
{
    lemma_find_first_push(before@, (k, v), k);
}

/// Of two insertions of the same key, searching yields the first value, whatever
/// was inserted in between.
pub proof fn lemma_first_insert_wins<T>(
    before: HashTable<'_, T>,
    after: HashTable<'_, T>,
    k: Seq<char>,
    a: T,
    between: Seq<(Seq<char>, T)>,
    b: T,
)
    requires
        find_first(before@, k) is None,
        after@ == before@.push((k, a)) + between.push((k, b)),
    ensures
        find_first(after@, k) == Some(a),
{
    lemma_find_first_push(before@, (k, a), k);
    lemma_find_first_append(before@.push((k, a)), between.push((k, b)), k);
}

/// With pairwise distinct keys, each entry's key finds that entry's value.
pub proof fn lemma_distinct_keys_found<T>(entries: Seq<(Seq<char>, T)>, i: int)
    requires
        0 <= i < entries.len(),
        forall|j: int, l: int|
            0 <= j < l < entries.len() ==> #[trigger] entries[j].0 != #[trigger] entries[l].0,
    ensures
        find_first(entries, entries[i].0) == Some(entries[i].1),
    decreases entries.len(),
{
    let rest = entries.drop_last();
    let e = entries.last();
    assert(rest.push(e) =~= entries);
    if i == entries.len() - 1 {
        assert forall|j: int| 0 <= j < rest.len() implies #[trigger] rest[j].0 != e.0 by {
            assert(entries[j].0 != entries[entries.len() - 1].0);
        }
        lemma_miss(rest, e.0);
    } else {
        lemma_distinct_keys_found(rest, i);
    }
    lemma_find_first_push(rest, e, entries[i].0);
}

/// Entries whose keys all fall in bucket `b` all stand in that bucket, in order.
pub proof fn lemma_all_in_bucket<T>(entries: Seq<(Seq<char>, T)>, b: int)
    requires
        forall|j: int| 0 <= j < entries.len() ==> bucket_of(#[trigger] entries[j].0) == b,
    ensures
        bucket_entries(entries, b) == entries,
    decreases entries.len(),
{
    if entries.len() > 0 {
        let rest = entries.drop_last();
        assert forall|j: int| 0 <= j < rest.len() implies bucket_of(#[trigger] rest[j].0) == b by {
            assert(rest[j] == entries[j]);
        }
        lemma_all_in_bucket(rest, b);
        assert(rest.push(entries.last()) =~= entries);
    }
}

/// When every key of a table collides in one bucket, that bucket's chain holds
/// every entry, and each of pairwise distinct keys finds its own value.
pub proof fn lemma_collisions_all_found<T>(t: HashTable<'_, T>, b: int, i: int)
    requires
        t.wf(),
        0 <= b < HASH_SIZE,
        0 <= i < t@.len(),
        forall|j: int| 0 <= j < t@.len() ==> bucket_of(#[trigger] t@[j].0) == b,
        forall|j: int, l: int| 0 <= j < l < t@.len() ==> #[trigger] t@[j].0 != #[trigger] t@[l].0,
    ensures
        t.buckets()[b] == t@,
        find_first(t@, t@[i].0) == Some(t@[i].1),
{
    lemma_all_in_bucket(t@, b);
    lemma_distinct_keys_found(t@, i);
}

} // verus!
