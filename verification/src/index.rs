//! A set of texts that remembers the order in which they came and finds
//! each of them quickly.

use crate::text::{same_chars, views};
use vstd::prelude::*;

verus! {

/// Number of buckets that the texts are spread over.
pub const BUCKETS: usize = 4096;

/// The bucket of a text.
pub open spec fn bucket_of(s: Seq<char>) -> nat
    decreases s.len(),
{
    if s.len() == 0 {
        0
    } else {
        ((bucket_of(s.drop_last()) * 31 + s.last() as u32) % (BUCKETS as int)) as nat
    }
}

/// No text occurs twice.
pub open spec fn distinct(keys: Seq<Seq<char>>) -> bool {
    forall|i: int, j: int| 0 <= i < j < keys.len() ==> #[trigger] keys[i] != #[trigger] keys[j]
}

/// Computes the bucket of a text.
fn bucket(key: &Vec<char>) -> (b: usize)
    ensures
        b == bucket_of(key@),
        b < BUCKETS,
{
    let mut h: u64 = 0;
    let mut i: usize = 0;
    proof {
        assert(key@.take(0) =~= Seq::empty());
    }
    while i < key.len()
        invariant
            i <= key.len(),
            h == bucket_of(key@.take(i as int)),
            h < BUCKETS,
        decreases key.len() - i,
    {
        proof {
            assert(key@.take(i + 1).drop_last() =~= key@.take(i as int));
            assert(key@.take(i + 1).last() == key@[i as int]);
        }
        let c: u32 = key[i] as u32;
        h = (h * 31 + c as u64) % (BUCKETS as u64);
        i = i + 1;
    }
    proof {
        assert(key@.take(key.len() as int) =~= key@);
    }
    h as usize
}

/// Distinct texts in the order in which they were added.
#[derive(Debug)]
pub struct TextIndex {
    keys: Vec<Vec<char>>,
    buckets: Vec<Vec<usize>>,
}

impl TextIndex {
    /// The texts, in the order in which they were added.
    pub closed spec fn view(&self) -> Seq<Seq<char>> {
        views(self.keys@)
    }

    /// No text occurs twice, and each is listed in its bucket.
    pub closed spec fn wf(&self) -> bool {
        &&& self.buckets@.len() == BUCKETS
        &&& distinct(self@)
        &&& forall|b: int, j: int|
            0 <= b < self.buckets@.len() && 0 <= j < self.buckets@[b]@.len()
                ==> #[trigger] self.buckets@[b]@[j] < self.keys@.len()
        &&& forall|i: int|
            0 <= i < self.keys@.len() ==> self.buckets@[bucket_of(#[trigger] self.keys@[i]@) as int]@.contains(
                i as usize,
            )
    }

    /// An index without texts.
    pub fn new() -> (index: TextIndex)
        ensures
            index.wf(),
            index@.len() == 0,
    {
        let mut buckets: Vec<Vec<usize>> = Vec::new();
        let mut b: usize = 0;
        while b < BUCKETS
            invariant
                b <= BUCKETS,
                buckets@.len() == b,
                forall|k: int| 0 <= k < b ==> (#[trigger] buckets@[k])@.len() == 0,
            decreases BUCKETS - b,
        {
            buckets.push(Vec::new());
            b = b + 1;
        }
        TextIndex { keys: Vec::new(), buckets }
    }

    /// How many texts there are.
    pub fn len(&self) -> (n: usize)
        ensures
            n == self@.len(),
    {
        self.keys.len()
    }

    /// The text at place `i`.
    pub fn key_at(&self, i: usize) -> (key: &Vec<char>)
        requires
            i < self@.len(),
        ensures
            key@ == self@[i as int],
    {
        &self.keys[i]
    }

    /// The place of a text; `None` where it is not in the index.
    pub fn find(&self, key: &Vec<char>) -> (place: Option<usize>)
        requires
            self.wf(),
        ensures
            match place {
                Some(i) => i < self@.len() && self@[i as int] == key@ && index_in(self@, key@) == i,
                None => !self@.contains(key@) && index_in(self@, key@) == self@.len(),
            },
    {
        let b = bucket(key);
        let n = self.keys.len();
        let candidates = &self.buckets[b];
        let mut j: usize = 0;
        while j < candidates.len()
            invariant
                self.wf(),
                n == self.keys@.len(),
                j <= candidates@.len(),
                b == bucket_of(key@),
                *candidates == self.buckets@[b as int],
                forall|k: int| 0 <= k < j ==> self@[#[trigger] candidates@[k] as int] != key@,
            decreases candidates@.len() - j,
        {
            let i = candidates[j];
            proof {
                assert(self.buckets@[b as int]@[j as int] < self.keys@.len());
            }
            if same_chars(&self.keys[i], key) {
                proof {
                    assert forall|k: int| 0 <= k < i implies #[trigger] self@[k] != key@ by {
                        assert(self@[k] != self@[i as int]);
                    }
                    lemma_index_in_is(self@, key@, i as int);
                }
                return Some(i);
            }
            j = j + 1;
        }
        proof {
            assert forall|i: int| 0 <= i < self@.len() implies self@[i] != key@ by {
                if self@[i] == key@ {
                    assert(self.keys@[i]@ == key@);
                    let bucket = self.buckets@[bucket_of(self.keys@[i]@) as int]@;
                    assert(bucket.contains(i as usize));
                    assert(bucket == candidates@);
                    let k = choose|k: int| 0 <= k < bucket.len() && bucket[k] == i as usize;
                    assert((i as usize) as int == i);
                    assert(self@[candidates@[k] as int] != key@);
                }
            }
            lemma_index_in_is(self@, key@, self@.len() as int);
        }
        None
    }

    /// Adds a text that is not in the index; returns its place, which is
    /// behind all others.
    pub fn insert(&mut self, key: Vec<char>) -> (place: usize)
        requires
            old(self).wf(),
            !old(self)@.contains(key@),
        ensures
            final(self).wf(),
            final(self)@ == old(self)@.push(key@),
            place == old(self)@.len(),
    {
        let b = bucket(&key);
        let place = self.keys.len();
        let ghost old_keys = self.keys@;
        let ghost old_buckets = self.buckets@;
        self.keys.push(key);
        self.buckets[b].push(place);
        proof {
            assert(self@ =~= old(self)@.push(key@));
            assert(self.buckets@.len() == BUCKETS);
            assert forall|i: int, j: int| 0 <= i < j < self@.len() implies #[trigger] self@[i]
                != #[trigger] self@[j] by {
                if j == old_keys.len() {
                    assert(old(self)@[i] == self@[i]);
                    assert(old(self)@.contains(self@[i]));
                } else {
                    assert(old(self)@[i] == self@[i]);
                    assert(old(self)@[j] == self@[j]);
                }
            }
            assert forall|c: int, j: int|
                0 <= c < self.buckets@.len() && 0 <= j < self.buckets@[c]@.len() implies #[trigger] self.buckets@[c]@[j]
                < self.keys@.len() by {
                if c == b {
                    if j < old_buckets[c]@.len() {
                        assert(self.buckets@[c]@[j] == old_buckets[c]@[j]);
                    }
                } else {
                    assert(self.buckets@[c] == old_buckets[c]);
                }
            }
            assert forall|i: int| 0 <= i < self.keys@.len() implies self.buckets@[bucket_of(
                #[trigger] self.keys@[i]@,
            ) as int]@.contains(i as usize) by {
                let c = bucket_of(self.keys@[i]@) as int;
                lemma_bucket_bound(self.keys@[i]@);
                if i < old_keys.len() {
                    assert(self.keys@[i] == old_keys[i]);
                    assert(old_buckets[c]@.contains(i as usize));
                    let k = choose|k: int| 0 <= k < old_buckets[c]@.len() && old_buckets[c]@[k] == i as usize;
                    if c == b {
                        assert(self.buckets@[c]@[k] == i as usize);
                    } else {
                        assert(self.buckets@[c] == old_buckets[c]);
                    }
                } else {
                    assert(self.buckets@[b as int]@[old_buckets[b as int]@.len() as int] == place);
                }
            }
        }
        place
    }
}

/// A bucket number lies below the number of buckets.
pub proof fn lemma_bucket_bound(s: Seq<char>)
    ensures
        bucket_of(s) < BUCKETS,
    decreases s.len(),
{
    if s.len() > 0 {
        lemma_bucket_bound(s.drop_last());
    }
}

/// Position of the first `key` among `keys`, or their number where there is
/// none.
pub open spec fn index_in(keys: Seq<Seq<char>>, key: Seq<char>) -> int
    decreases keys.len(),
{
    if keys.len() == 0 || keys[0] == key {
        0
    } else {
        1 + index_in(keys.drop_first(), key)
    }
}

/// `index_in` lies within the keys, points at `key` where it is inside, and
/// passes over no such key.
pub proof fn lemma_index_in_bounds(keys: Seq<Seq<char>>, key: Seq<char>)
    ensures
        0 <= index_in(keys, key) <= keys.len(),
        index_in(keys, key) < keys.len() ==> keys[index_in(keys, key)] == key,
        forall|k: int| 0 <= k < index_in(keys, key) ==> #[trigger] keys[k] != key,
    decreases keys.len(),
{
    if keys.len() == 0 || keys[0] == key {
    } else {
        let r = keys.drop_first();
        lemma_index_in_bounds(r, key);
        assert forall|k: int| 0 <= k < index_in(keys, key) implies #[trigger] keys[k] != key by {
            if k > 0 {
                assert(keys[k] == r[k - 1]);
            }
        }
    }
}

/// A position with no such key before it, which holds the key or is the end,
/// is the key's index.
pub proof fn lemma_index_in_is(keys: Seq<Seq<char>>, key: Seq<char>, j: int)
    requires
        0 <= j <= keys.len(),
        forall|k: int| 0 <= k < j ==> #[trigger] keys[k] != key,
        j < keys.len() ==> keys[j] == key,
    ensures
        index_in(keys, key) == j,
    decreases keys.len(),
{
    if keys.len() == 0 || keys[0] == key {
        if j > 0 {
            assert(keys[0] != key);
        }
    } else {
        let r = keys.drop_first();
        assert forall|k: int| 0 <= k < j - 1 implies #[trigger] r[k] != key by {
            assert(r[k] == keys[k + 1]);
        }
        lemma_index_in_is(r, key, j - 1);
    }
}

} // verus!
