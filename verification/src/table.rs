//! A map from coordinates to step indices.
//!
//! The keys are the 32 byte coordinates of curve points, or no coordinate
//! for the point at infinity. The entries lie in buckets that a prefix of
//! the key selects; coordinates of curve points spread evenly over them.

use crate::bytes::same_bytes;
use vstd::prelude::*;

verus! {

/// A key with its value.
pub struct Entry {
    pub key: [u8; 32],
    pub value: u64,
}

/// A map from coordinates to step indices.
pub struct CoordinateMap {
    buckets: Vec<Vec<Entry>>,
    identity: Option<u64>,
    contents: Ghost<Map<Option<Seq<u8>>, u64>>,
}

/// The number that the first `i` bytes of `key` denote, modulo 2^64.
pub open spec fn prefix(key: Seq<u8>, i: nat) -> nat
    decreases i,
{
    if i == 0 {
        0
    } else {
        (prefix(key, (i - 1) as nat) * 256 + key[i - 1] as nat) % 0x1_0000_0000_0000_0000
    }
}

/// The bucket, of `n`, that `key` belongs to.
pub open spec fn slot(key: Seq<u8>, n: int) -> int {
    prefix(key, 8) as int % n
}

/// What a key of the executable map is in contracts.
pub open spec fn key_view(key: Option<[u8; 32]>) -> Option<Seq<u8>> {
    match key {
        None => None,
        Some(k) => Some(k@),
    }
}

impl View for CoordinateMap {
    type V = Map<Option<Seq<u8>>, u64>;

    closed spec fn view(&self) -> Map<Option<Seq<u8>>, u64> {
        self.contents@
    }
}

impl CoordinateMap {
    /// The entry at place `j` of bucket `b`.
    pub closed spec fn entry(&self, b: int, j: int) -> Entry {
        self.buckets@[b]@[j]
    }

    /// The length of bucket `b`.
    pub closed spec fn bucket_len(&self, b: int) -> int {
        self.buckets@[b]@.len() as int
    }

    /// The number of buckets.
    pub closed spec fn width(&self) -> int {
        self.buckets@.len() as int
    }

    /// The buckets hold the contents: each entry lies in the bucket of its
    /// key and is an entry of the contents, no key lies twice in a bucket,
    /// and each key of the contents lies in its bucket.
    pub closed spec fn wf(&self) -> bool {
        &&& self.width() > 0
        &&& self.contents@.contains_key(None) <==> self.identity is Some
        &&& self.identity is Some ==> self.contents@[None] == self.identity->0
        &&& forall|b: int, j: int|
            0 <= b < self.width() && 0 <= j < self.bucket_len(b) ==> {
                let e = #[trigger] self.entry(b, j);
                &&& slot(e.key@, self.width()) == b
                &&& self.contents@.contains_key(Some(e.key@))
                &&& self.contents@[Some(e.key@)] == e.value
            }
        &&& forall|b: int, i: int, j: int|
            0 <= b < self.width() && 0 <= i < j < self.bucket_len(b) ==> (#[trigger] self.entry(
                b,
                i,
            )).key@ != (#[trigger] self.entry(b, j)).key@
        &&& forall|k: Seq<u8>| #[trigger]
            self.contents@.contains_key(Some(k)) ==> exists|j: int|
                0 <= j < self.bucket_len(slot(k, self.width())) && (#[trigger] self.entry(
                    slot(k, self.width()),
                    j,
                )).key@ == k
    }

    /// An empty map with `width` buckets, at least one.
    pub fn new(width: usize) -> (m: CoordinateMap)
        ensures
            m.wf(),
            m@ == Map::<Option<Seq<u8>>, u64>::empty(),
    {
        let mut buckets: Vec<Vec<Entry>> = Vec::new();
        buckets.push(Vec::new());
        let mut i: usize = 1;
        while i < width
            invariant
                buckets@.len() >= 1,
                forall|b: int| 0 <= b < buckets@.len() ==> (#[trigger] buckets@[b])@.len() == 0,
            decreases width - i,
        {
            buckets.push(Vec::new());
            i += 1;
        }
        CoordinateMap { buckets, identity: None, contents: Ghost(Map::empty()) }
    }

    /// The bucket of `key`.
    fn bucket_of(&self, key: &[u8; 32]) -> (b: usize)
        requires
            self.wf(),
        ensures
            b == slot(key@, self.width()),
            0 <= b < self.width(),
    {
        let mut h: u64 = 0;
        let mut i: usize = 0;
        while i < 8
            invariant
                i <= 8,
                h == prefix(key@, i as nat),
            decreases 8 - i,
        {
            let wide: u128 = (h as u128) * 256 + (key[i] as u128);
            h = (wide % 0x1_0000_0000_0000_0000u128) as u64;
            i += 1;
        }
        let n: usize = self.buckets.len();
        (h % (n as u64)) as usize
    }

    /// The value at `key`, if the map holds one.
    pub fn get(&self, key: &Option<[u8; 32]>) -> (r: Option<u64>)
        requires
            self.wf(),
        ensures
            r == (if self@.contains_key(key_view(*key)) {
                Some(self@[key_view(*key)])
            } else {
                None
            }),
    {
        match key {
            None => self.identity,
            Some(k) => {
                let b = self.bucket_of(k);
                let bucket = &self.buckets[b];
                let mut j: usize = 0;
                while j < bucket.len()
                    invariant
                        self.wf(),
                        *key == Some(*k),
                        0 <= b < self.width(),
                        b == slot(k@, self.width()),
                        *bucket == self.buckets@[b as int],
                        j <= bucket@.len(),
                        forall|i: int| 0 <= i < j ==> (#[trigger] self.entry(b as int, i)).key@ != k@,
                    decreases bucket@.len() - j,
                {
                    if same_bytes(&bucket[j].key, k) {
                        assert(bucket@[j as int] == self.entry(b as int, j as int));
                        return Some(bucket[j].value);
                    }
                    j += 1;
                }
                None
            },
        }
    }

    /// Puts `value` at `key`, in place of what was there.
    pub fn insert(&mut self, key: Option<[u8; 32]>, value: u64)
        requires
            old(self).wf(),
        ensures
            final(self).wf(),
            final(self)@ == old(self)@.insert(key_view(key), value),
    {
        match key {
            None => {
                self.identity = Some(value);
                self.contents = Ghost(self.contents@.insert(None, value));
                assert(self.wf()) by {
                    assert forall|b: int, i: int, j: int|
                        0 <= b < self.width() && 0 <= i < j < self.bucket_len(b) implies (
                    #[trigger] self.entry(b, i)).key@ != (#[trigger] self.entry(b, j)).key@ by {
                        assert(self.entry(b, i) == old(self).entry(b, i));
                        assert(self.entry(b, j) == old(self).entry(b, j));
                    }
                    assert forall|b: int, j: int|
                        0 <= b < self.width() && 0 <= j < self.bucket_len(b) implies {
                        let e = #[trigger] self.entry(b, j);
                        &&& slot(e.key@, self.width()) == b
                        &&& self.contents@.contains_key(Some(e.key@))
                        &&& self.contents@[Some(e.key@)] == e.value
                    } by {
                        assert(self.entry(b, j) == old(self).entry(b, j));
                    }
                    assert forall|k: Seq<u8>| #[trigger]
                        self.contents@.contains_key(Some(k)) implies exists|j: int|
                        0 <= j < self.bucket_len(slot(k, self.width())) && (#[trigger] self.entry(
                            slot(k, self.width()),
                            j,
                        )).key@ == k by {
                        let j = choose|j: int|
                            0 <= j < old(self).bucket_len(slot(k, old(self).width())) && (
                            #[trigger] old(self).entry(slot(k, old(self).width()), j)).key@ == k;
                        assert(self.entry(slot(k, self.width()), j).key@ == k);
                    }
                }
            },
            Some(k) => {
                let b = self.bucket_of(&k);
                let mut j: usize = 0;
                let len = self.buckets[b].len();
                let mut found: Option<usize> = None;
                while j < len
                    invariant_except_break
                        found is None,
                        forall|i: int| 0 <= i < j ==> (#[trigger] self.entry(b as int, i)).key@ != k@,
                    invariant
                        self.wf(),
                        *self == *old(self),
                        0 <= b < self.width(),
                        b == slot(k@, self.width()),
                        len == self.bucket_len(b as int),
                        j <= len,
                    ensures
                        found is Some ==> found->0 < len && self.entry(b as int, found->0 as int).key@
                            == k@,
                        found is None ==> forall|i: int|
                            0 <= i < len ==> (#[trigger] self.entry(b as int, i)).key@ != k@,
                    decreases len - j,
                {
                    if same_bytes(&self.buckets[b][j].key, &k) {
                        found = Some(j);
                        break ;
                    }
                    j += 1;
                }
                let ghost before = *self;
                match found {
                    Some(at) => {
                        self.buckets[b][at] = Entry { key: k, value };
                    },
                    None => {
                        self.buckets[b].push(Entry { key: k, value });
                    },
                }
                self.contents = Ghost(self.contents@.insert(Some(k@), value));
                proof {
                    self.lemma_inserted(&before, b as int, k@, value, found);
                }
            },
        }
    }

    /// After the entry for `k` was replaced or appended in bucket `b`, the
    /// buckets hold the contents with `k` put at `value`.
    proof fn lemma_inserted(
        &self,
        before: &CoordinateMap,
        b: int,
        k: Seq<u8>,
        value: u64,
        found: Option<usize>,
    )
        requires
            before.wf(),
            0 <= b < before.width(),
            b == slot(k, before.width()),
            self.identity == before.identity,
            self.contents@ == before.contents@.insert(Some(k), value),
            self.buckets@.len() == before.buckets@.len(),
            forall|c: int| 0 <= c < before.width() && c != b ==> self.buckets@[c] == before.buckets@[c],
            found is Some ==> found->0 < before.bucket_len(b) && before.entry(b, found->0 as int).key@
                == k && self.buckets@[b]@ == before.buckets@[b]@.update(
                found->0 as int,
                Entry { key: self.entry(b, found->0 as int).key, value },
            ) && self.entry(b, found->0 as int).key@ == k,
            found is None ==> (forall|i: int|
                0 <= i < before.bucket_len(b) ==> (#[trigger] before.entry(b, i)).key@ != k)
                && self.buckets@[b]@.len() == before.buckets@[b]@.len() + 1 && (forall|i: int|
                0 <= i < before.bucket_len(b) ==> self.buckets@[b]@[i] == before.buckets@[b]@[i])
                && self.entry(b, before.bucket_len(b)).key@ == k && self.entry(
                b,
                before.bucket_len(b),
            ).value == value,
        ensures
            self.wf(),
    {
        let w = self.width();
        assert forall|c: int, j: int| 0 <= c < w && 0 <= j < self.bucket_len(c) implies {
            let e = #[trigger] self.entry(c, j);
            &&& slot(e.key@, w) == c
            &&& self.contents@.contains_key(Some(e.key@))
            &&& self.contents@[Some(e.key@)] == e.value
        } by {
            if c != b {
                assert(before.entry(c, j).key@ != k);
            }
        }
        assert forall|c: int, i: int, j: int|
            0 <= c < w && 0 <= i < j < self.bucket_len(c) implies (#[trigger] self.entry(c, i)).key@
            != (#[trigger] self.entry(c, j)).key@ by {
            if c != b {
                assert(self.entry(c, j) == before.entry(c, j));
            } else if found is Some {
                assert(before.entry(c, i).key@ != before.entry(c, j).key@);
            } else {
                assert(self.entry(c, i) == before.entry(c, i));
                if j < before.bucket_len(b) {
                    assert(self.entry(c, j) == before.entry(c, j));
                }
            }
        }
        assert forall|q: Seq<u8>| #[trigger] self.contents@.contains_key(Some(q)) implies exists|
            j: int,
        |
            0 <= j < self.bucket_len(slot(q, w)) && (#[trigger] self.entry(slot(q, w), j)).key@
                == q by {
            if q != k {
                let c = slot(q, w);
                let j = choose|j: int|
                    0 <= j < before.bucket_len(c) && (#[trigger] before.entry(c, j)).key@ == q;
                assert(self.entry(c, j).key@ == q);
            }
        }
    }
}

} // verus!
