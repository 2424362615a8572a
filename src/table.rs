//! Chains of key/value nodes and the fixed-size table of chains.

use vstd::prelude::*;
use vstd::string::StringSliceAdditionalSpecFns;
use vstd::utf8::encode_utf8;
use crate::hash::{dbj2, djb2_of};

verus! {

/// Number of buckets in every table.
pub const HASH_SIZE: usize = 100;

/// The bucket that a key with the characters `k` belongs to.
pub open spec fn bucket_of(k: Seq<char>) -> int {
    djb2_of(encode_utf8(k)) as int % HASH_SIZE as int
}

/// The value of the first entry, walking from the front, whose key is `k`.
pub open spec fn find_first<T>(entries: Seq<(Seq<char>, T)>, k: Seq<char>) -> Option<T>
    decreases entries.len(),
{
    if entries.len() == 0 {
        None
    } else if entries[0].0 == k {
        Some(entries[0].1)
    } else {
        find_first(entries.drop_first(), k)
    }
}

/// The entries of `entries` that belong to bucket `b`, in their order.
pub open spec fn bucket_entries<T>(entries: Seq<(Seq<char>, T)>, b: int) -> Seq<(Seq<char>, T)>
    decreases entries.len(),
{
    if entries.len() == 0 {
        Seq::empty()
    } else {
        let rest = bucket_entries(entries.drop_last(), b);
        if bucket_of(entries.last().0) == b {
            rest.push(entries.last())
        } else {
            rest
        }
    }
}

/// Appending an entry changes the first match only where there was none.
pub proof fn lemma_find_first_push<T>(entries: Seq<(Seq<char>, T)>, e: (Seq<char>, T), k: Seq<char>)
    ensures
        find_first(entries.push(e), k) == (if find_first(entries, k) is Some {
            find_first(entries, k)
        } else if e.0 == k {
            Some(e.1)
        } else {
            None
        }),
    decreases entries.len(),
{
    let s = entries.push(e);
    if entries.len() == 0 {
        assert(s.drop_first() =~= Seq::empty());
        assert(find_first(s.drop_first(), k) is None);
    } else {
        assert(s.drop_first() =~= entries.drop_first().push(e));
        lemma_find_first_push(entries.drop_first(), e, k);
    }
}

/// Searching only the bucket of `k` finds what searching all entries finds.
pub proof fn lemma_find_in_bucket<T>(entries: Seq<(Seq<char>, T)>, k: Seq<char>)
    ensures
        find_first(bucket_entries(entries, bucket_of(k)), k) == find_first(entries, k),
    decreases entries.len(),
{
    if entries.len() > 0 {
        let rest = entries.drop_last();
        let e = entries.last();
        assert(rest.push(e) =~= entries);
        lemma_find_in_bucket(rest, k);
        lemma_find_first_push(rest, e, k);
        if bucket_of(e.0) == bucket_of(k) {
            lemma_find_first_push(bucket_entries(rest, bucket_of(k)), e, k);
        }
    }
}

/// Compares two strings by their UTF-8 bytes.
fn keys_equal(a: &str, b: &str) -> (r: bool)
    ensures
        r == (a@ == b@),
{
    broadcast use vstd::utf8::encode_utf8_decode_utf8;

    let x = a.as_bytes();
    let y = b.as_bytes();
    if x.len() != y.len() {
        return false;
    }
    let mut i: usize = 0;
    while i < x.len()
        invariant
            x@ == a.spec_bytes(),
            y@ == b.spec_bytes(),
            x@.len() == y@.len(),
            0 <= i <= x@.len(),
            forall|j: int| 0 <= j < i ==> x@[j] == y@[j],
        decreases x@.len() - i,
    {
        if x[i] != y[i] {
            return false;
        }
        i = i + 1;
    }
    assert(x@ =~= y@);
    assert(vstd::utf8::decode_utf8(encode_utf8(a@)) == a@);
    assert(vstd::utf8::decode_utf8(encode_utf8(b@)) == b@);
    true
}

/// One node of a chain: a key, its value, and the rest of the chain.
pub struct HashNode<'a, T> {
    key: &'a str,
    value: T,
    next: Option<Box<HashNode<'a, T>>>,
}

/// The entries of a possibly empty chain, head first.
pub closed spec fn chain_of<'a, T>(o: Option<Box<HashNode<'a, T>>>) -> Seq<(Seq<char>, T)>
    decreases o,
{
    match o {
        Some(n) => seq![(n.key@, n.value)] + chain_of(n.next),
        None => Seq::empty(),
    }
}

/// An empty chain has no entries; a chain that starts at a node has that
/// node's entries.
pub broadcast proof fn lemma_chain_of<'a, T>(o: Option<Box<HashNode<'a, T>>>)
    ensures
        #[trigger] chain_of(o) == match o {
            Some(n) => n.chain(),
            None => Seq::empty(),
        },
{
    assert(chain_of(o) =~= match o {
        Some(n) => n.chain(),
        None => Seq::empty(),
    });
}

/// The chain that starts at a node begins with that node's own key and value.
pub broadcast proof fn lemma_chain_head<'a, T>(n: HashNode<'a, T>)
    ensures
        #[trigger] n.chain().len() >= 1,
        n.chain()[0] == (n.key_view(), n.value_view()),
{
}

pub broadcast group group_chain_lemmas {
    lemma_chain_of,
    lemma_chain_head,
}

impl<'a, T> HashNode<'a, T> {
    /// The entries of the chain that starts at this node, head first.
    pub closed spec fn chain(&self) -> Seq<(Seq<char>, T)> {
        seq![(self.key@, self.value)] + chain_of(self.next)
    }

    /// The characters of this node's key.
    pub closed spec fn key_view(&self) -> Seq<char> {
        self.key@
    }

    /// The value this node holds.
    pub closed spec fn value_view(&self) -> T {
        self.value
    }

    /// A chain of one node holding `key` and `value`.
    pub fn create_node(key: &'a str, value: T) -> (r: Option<Box<HashNode<'a, T>>>)
        ensures
            r is Some,
            r->0.chain() == seq![(key@, value)],
            r->0.key_view() == key@,
            r->0.value_view() == value,
            chain_of(r) == seq![(key@, value)],
    {
        let r = Some(Box::new(HashNode { key, value, next: None }));
        let ghost empty: Option<Box<HashNode<'a, T>>> = None;
        assert(chain_of(empty) =~= Seq::empty());
        assert(chain_of(r) =~= seq![(key@, value)]);
        r
    }

    /// Walks to the last node of the chain at `node` and attaches `next` after it.
    pub fn insert_next_node(node: &mut Box<HashNode<'a, T>>, next: Option<Box<HashNode<'a, T>>>)
        ensures
            final(node).chain() == old(node).chain() + chain_of(next),
            next is None ==> final(node).chain() == old(node).chain(),
    {
        proof {
            if next is None {
                assert(old(node).chain() + chain_of(next) =~= old(node).chain());
            }
        }
        let ghost end = *final(node);
        let mut cur: &mut Box<HashNode<'a, T>> = node;
        let ghost mut walked: Seq<(Seq<char>, T)> = Seq::empty();
        while cur.next.is_some()
            invariant
                old(node).chain() == walked + cur.chain(),
                end.chain() == walked + final(cur).chain(),
            decreases cur.chain().len(),
        {
            let ghost here = (cur.key@, cur.value);
            cur = cur.next.as_mut().unwrap();
            proof {
                walked = walked.push(here);
            }
        }
        cur.next = next;
    }

    /// The value of the first node, from this one on, whose key equals `key`.
    pub fn search_node(&self, key: &str) -> (r: Option<&T>)
        ensures
            match r {
                Some(v) => find_first(self.chain(), key@) == Some(*v),
                None => find_first(self.chain(), key@) is None,
            },
    {
        let mut cur: &HashNode<'a, T> = self;
        loop
            invariant
                find_first(cur.chain(), key@) == find_first(self.chain(), key@),
            decreases cur.chain().len(),
        {
            if keys_equal(cur.key, key) {
                return Some(&cur.value);
            }
            match &cur.next {
                Some(n) => {
                    assert(cur.chain().drop_first() =~= n.chain());
                    cur = n;
                },
                None => {
                    assert(cur.chain().drop_first() =~= Seq::empty());
                    assert(find_first(cur.chain().drop_first(), key@) is None);
                    return None;
                },
            }
        }
    }
}

/// A table of `HASH_SIZE` buckets, each the head of a chain.
pub struct HashTable<'a, T> {
    table: Vec<Option<Box<HashNode<'a, T>>>>,
    entries: Ghost<Seq<(Seq<char>, T)>>,
}

impl<'a, T> View for HashTable<'a, T> {
    type V = Seq<(Seq<char>, T)>;

    /// Every entry inserted so far, oldest first.
    closed spec fn view(&self) -> Seq<(Seq<char>, T)> {
        self.entries@
    }
}

impl<'a, T> HashTable<'a, T> {
    /// The chain of each bucket, by bucket index.
    pub closed spec fn buckets(&self) -> Seq<Seq<(Seq<char>, T)>> {
        Seq::new(self.table@.len(), |i: int| chain_of(self.table@[i]))
    }

    /// There are `HASH_SIZE` buckets, and each holds exactly the inserted entries
    /// of its keys, in the order they were inserted.
    pub open spec fn wf(&self) -> bool {
        &&& self.buckets().len() == HASH_SIZE
        &&& forall|i: int|
            0 <= i < HASH_SIZE ==> #[trigger] self.buckets()[i] == bucket_entries(self@, i)
    }

    /// An empty table.
    pub fn new() -> (r: Self)
        ensures
            r.wf(),
            r@ == Seq::<(Seq<char>, T)>::empty(),
    {
        let mut table: Vec<Option<Box<HashNode<'a, T>>>> = Vec::new();
        let mut i: usize = 0;
        while i < HASH_SIZE
            invariant
                table@.len() == i,
                i <= HASH_SIZE,
                forall|j: int| 0 <= j < i ==> table@[j] is None,
            decreases HASH_SIZE - i,
        {
            table.push(None);
            i = i + 1;
        }
        let r = HashTable { table, entries: Ghost(Seq::empty()) };
        assert forall|i: int| 0 <= i < HASH_SIZE implies #[trigger] r.buckets()[i] == bucket_entries(r@, i) by {
            assert(chain_of(r.table@[i]) =~= Seq::empty());
        }
        r
    }

    /// Appends `key` and `value` at the end of the chain of the key's bucket.
    pub fn insert(&mut self, key: &'a str, value: T)
        requires
            old(self).wf(),
        ensures
            final(self).wf(),
            final(self)@ == old(self)@.push((key@, value)),
            final(self).buckets() == old(self).buckets().update(
                bucket_of(key@),
                old(self).buckets()[bucket_of(key@)].push((key@, value)),
            ),
    {
        let hash_key: usize = (dbj2(key) % (HASH_SIZE as u64)) as usize;
        let ghost entry = (key@, value);
        let ghost before = self.entries@;
        let slot = &mut self.table[hash_key];
        match slot {
            Some(x) => HashNode::insert_next_node(x, HashNode::create_node(key, value)),
            None => {
                *slot = HashNode::create_node(key, value);
            },
        }
        proof {
            self.entries@ = before.push(entry);
            assert(self.entries@.drop_last() =~= before);
            assert(hash_key == bucket_of(key@));
            assert(chain_of(self.table@[hash_key as int]) =~= chain_of(old(self).table@[hash_key as int]).push(entry));
            assert(self.buckets() =~= old(self).buckets().update(
                bucket_of(key@),
                old(self).buckets()[bucket_of(key@)].push(entry),
            ));
        }
    }

    /// The value of the oldest entry whose key equals `key`, if there is one.
    pub fn search(&self, key: &str) -> (r: Option<&T>)
        requires
            self.wf(),
        ensures
            match r {
                Some(v) => find_first(self@, key@) == Some(*v),
                None => find_first(self@, key@) is None,
            },
            find_first(self@, key@) == find_first(self.buckets()[bucket_of(key@)], key@),
    {
        let hash_key: usize = (dbj2(key) % (HASH_SIZE as u64)) as usize;
        proof {
            lemma_find_in_bucket(self@, key@);
        }
        match &self.table[hash_key] {
            Some(x) => x.search_node(key),
            None => None,
        }
    }
}

} // verus!
