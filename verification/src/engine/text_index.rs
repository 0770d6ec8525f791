//! A hash index from texts to positions, used to find rows by key.
use vstd::prelude::*;
use crate::text::chars_of;

verus! {

/// The number of buckets of a text index.
pub const BUCKETS: usize = 4093;

/// The bucket of `s`: a polynomial hash of its characters, reduced at every step.
pub open spec fn text_hash(s: Seq<char>) -> nat
    decreases s.len(),
{
    if s.len() == 0 {
        0
    } else {
        ((text_hash(s.drop_last()) * 31 + (s.last() as u32) as nat) % (BUCKETS as nat)) as nat
    }
}

/// The bucket of `s`.
pub fn hash_text(s: &str) -> (r: usize)
    ensures
        r == text_hash(s@),
        r < BUCKETS,
{
    let chars = chars_of(s);
    let mut h: u64 = 0;
    let mut i: usize = 0;
    while i < chars.len()
        invariant
            i <= chars@.len(),
            chars@ == s@,
            h == text_hash(chars@.take(i as int)),
            h < BUCKETS,
        decreases chars@.len() - i,
    {
        proof {
            assert(chars@.take(i + 1).drop_last() =~= chars@.take(i as int));
            assert(chars@.take(i + 1).last() == chars@[i as int]);
        }
        let c: u32 = chars[i] as u32;
        h = (h * 31 + c as u64) % (BUCKETS as u64);
        i = i + 1;
    }
    proof {
        assert(chars@.take(chars@.len() as int) =~= chars@);
    }
    h as usize
}

/// The value of the last entry of `bucket` with key `k`.
pub open spec fn bucket_lookup(bucket: Seq<(String, usize)>, k: Seq<char>) -> Option<usize>
    decreases bucket.len(),
{
    if bucket.len() == 0 {
        None
    } else if bucket.last().0@ == k {
        Some(bucket.last().1)
    } else {
        bucket_lookup(bucket.drop_last(), k)
    }
}

/// Texts mapped to positions.
pub struct TextIndex {
    buckets: Vec<Vec<(String, usize)>>,
}

impl TextIndex {
    /// The index has all its buckets.
    pub closed spec fn wf(&self) -> bool {
        self.buckets@.len() == BUCKETS
    }

    /// The value for `k`, if the index has one.
    pub closed spec fn lookup(&self, k: Seq<char>) -> Option<usize> {
        bucket_lookup(self.buckets@[text_hash(k) as int]@, k)
    }

    /// An index without texts.
    pub fn new() -> (r: Self)
        ensures
            r.wf(),
            forall|k: Seq<char>| #[trigger] r.lookup(k) is None,
    {
        let mut buckets: Vec<Vec<(String, usize)>> = Vec::new();
        let mut b: usize = 0;
        while b < BUCKETS
            invariant
                b <= BUCKETS,
                buckets@.len() == b,
                forall|q: int| 0 <= q < b ==> (#[trigger] buckets@[q])@.len() == 0,
            decreases BUCKETS - b,
        {
            buckets.push(Vec::new());
            b = b + 1;
        }
        let r = TextIndex { buckets };
        assert forall|k: Seq<char>| #[trigger] r.lookup(k) is None by {
            assert(r.buckets@[text_hash(k) as int]@.len() == 0);
        }
        r
    }

    /// The value for `k`.
    pub fn get(&self, k: &String) -> (r: Option<usize>)
        requires
            self.wf(),
        ensures
            r == self.lookup(k@),
    {
        let h = hash_text(k.as_str());
        let bucket = &self.buckets[h];
        let mut j: usize = bucket.len();
        proof {
            assert(bucket@.take(j as int) =~= bucket@);
            assert(bucket_lookup(bucket@, k@) == self.lookup(k@));
        }
        while j > 0
            invariant
                j <= bucket@.len(),
                bucket_lookup(bucket@, k@) == bucket_lookup(bucket@.take(j as int), k@),
                bucket_lookup(bucket@, k@) == self.lookup(k@),
            decreases j,
        {
            proof {
                assert(bucket@.take(j as int).drop_last() =~= bucket@.take(j - 1));
                assert(bucket@.take(j as int).last() == bucket@[j - 1]);
            }
            if bucket[j - 1].0 == *k {
                proof {
                    assert(bucket@[j - 1].0@ == k@);
                    assert(bucket_lookup(bucket@.take(j as int), k@) == Some(bucket@[j - 1].1));
                }
                return Some(bucket[j - 1].1);
            }
            j = j - 1;
        }
        None
    }

    /// Adds `k` with the value `v`; `k` is not in the index yet.
    pub fn insert(&mut self, k: String, v: usize)
        requires
            old(self).wf(),
        ensures
            final(self).wf(),
            final(self).lookup(k@) == Some(v),
            forall|q: Seq<char>| q != k@ ==> #[trigger] final(self).lookup(q) == old(self).lookup(q),
    {
        let h = hash_text(k.as_str());
        let mut bucket: Vec<(String, usize)> = Vec::new();
        self.buckets.set_and_swap(h, &mut bucket);
        let ghost before = bucket@;
        let ghost key = k@;
        bucket.push((k, v));
        proof {
            assert(bucket@.drop_last() =~= before);
        }
        self.buckets.set_and_swap(h, &mut bucket);
        proof {
            assert forall|q: Seq<char>| q != key implies #[trigger] self.lookup(q) == old(self).lookup(
                q,
            ) by {
                if text_hash(q) == h {
                    assert(self.buckets@[h as int]@.drop_last() =~= before);
                }
            }
        }
    }
}

} // verus!
