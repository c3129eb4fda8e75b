//! The set of fingerprints seen so far in a run.
use vstd::prelude::*;
use std::collections::HashMap;
use crate::bignat::radix;
use crate::fingerprint::{Fingerprint, Matrix};

verus! {

broadcast use vstd::std_specs::hash::group_hash_axioms;

/// A multiplier that spreads the bits of a digest.
pub const SPREAD: u64 = 0x9E37_79B9_7F4A_7C15;

/// One step of the digest: `(h * SPREAD + x) mod radix()`.
pub open spec fn mix(h: int, x: int) -> int {
    (h * SPREAD as int + x) % radix()
}

/// A 64-bit digest of a fingerprint, from the lowest 64 bits of each entry.
pub open spec fn digest_of(m: Matrix) -> u64 {
    mix(mix(mix(m.0 % radix(), m.1 % radix()), m.2 % radix()), m.3 % radix()) as u64
}

/// One step of the digest stays within 128 bits.
proof fn lemma_mix_fits(h: int, x: int)
    requires
        0 <= h < radix(),
        0 <= x < radix(),
    ensures
        0 <= h * SPREAD as int + x <= u128::MAX,
{
    let s = SPREAD as int;
    let r = radix();
    assert(0 <= h * s <= (r - 1) * (r - 1)) by (nonlinear_arith)
        requires
            0 <= h < r,
            0 <= s < r,
    ;
    assert((r - 1) * (r - 1) + (r - 1) <= u128::MAX) by (nonlinear_arith)
        requires
            r == 0x1_0000_0000_0000_0000int,
    ;
}

/// Computes `digest_of(key@)`.
fn digest(key: &Fingerprint) -> (r: u64)
    ensures
        r == digest_of(key@),
{
    let r: u128 = 0x1_0000_0000_0000_0000u128;
    let x0 = key.s00.low_bits();
    let x1 = key.s01.low_bits();
    let x2 = key.s10.low_bits();
    let x3 = key.s11.low_bits();
    let h: u128 = x0 as u128;
    proof {
        lemma_mix_fits(h as int, x1 as int);
    }
    let h: u128 = (h * SPREAD as u128 + x1 as u128) % r;
    proof {
        lemma_mix_fits(h as int, x2 as int);
    }
    let h: u128 = (h * SPREAD as u128 + x2 as u128) % r;
    proof {
        lemma_mix_fits(h as int, x3 as int);
    }
    let h: u128 = (h * SPREAD as u128 + x3 as u128) % r;
    h as u64
}

/// Every fingerprint inserted so far, filed by digest; it only grows.
pub struct Registry {
    buckets: HashMap<u64, Vec<Fingerprint>>,
}

/// Whether the list `b` holds the fingerprint `m`.
pub open spec fn holds(b: Seq<Fingerprint>, m: Matrix) -> bool {
    exists|i: int| 0 <= i < b.len() && (#[trigger] b[i])@ == m
}

impl View for Registry {
    type V = Set<Matrix>;

    closed spec fn view(&self) -> Set<Matrix> {
        Set::new(
            |m: Matrix|
                self.buckets@.contains_key(digest_of(m)) && holds(
                    self.buckets@[digest_of(m)]@,
                    m,
                ),
        )
    }
}

/// Whether `bucket` holds `key`.
fn bucket_holds(bucket: &Vec<Fingerprint>, key: &Fingerprint) -> (r: bool)
    ensures
        r == holds(bucket@, key@),
{
    let mut i: usize = 0;
    while i < bucket.len()
        invariant
            i <= bucket.len(),
            forall|j: int| 0 <= j < i ==> (#[trigger] bucket@[j])@ != key@,
        decreases bucket.len() - i,
    {
        if bucket[i].same_as(key) {
            return true;
        }
        i = i + 1;
    }
    false
}

impl Registry {
    /// An empty registry.
    pub fn new() -> (r: Registry)
        ensures
            r@ == Set::<Matrix>::empty(),
    {
        let r = Registry { buckets: HashMap::new() };
        assert(r@ =~= Set::<Matrix>::empty());
        r
    }

    /// Whether `key` has been inserted.
    pub fn contains(&self, key: &Fingerprint) -> (r: bool)
        ensures
            r == self@.contains(key@),
    {
        let d = digest(key);
        match self.buckets.get(&d) {
            Some(bucket) => bucket_holds(bucket, key),
            None => false,
        }
    }

    /// Records `key` if it is new. Returns whether it was new; a key already
    /// present leaves the registry as it was.
    pub fn insert_if_absent(&mut self, key: Fingerprint) -> (r: bool)
        ensures
            r == !old(self)@.contains(key@),
            final(self)@ == old(self)@.insert(key@),
    {
        let ghost k = key@;
        let ghost prev = self@;
        let ghost map0 = self.buckets@;
        let d = digest(&key);
        match self.buckets.remove(&d) {
            Some(mut bucket) => {
                let ghost b0 = bucket@;
                if bucket_holds(&bucket, &key) {
                    self.buckets.insert(d, bucket);
                    assert(self.buckets@ =~= map0);
                    assert(self@ =~= prev);
                    assert(prev.insert(k) =~= prev);
                    false
                } else {
                    bucket.push(key);
                    self.buckets.insert(d, bucket);
                    assert(self@ =~= prev.insert(k)) by {
                        assert(bucket@.last()@ == k);
                        assert forall|m: Matrix| #[trigger] prev.contains(m) implies self@.contains(m) by {
                            if digest_of(m) == d {
                                let i = choose|i: int| 0 <= i < b0.len() && (#[trigger] b0[i])@ == m;
                                assert(bucket@[i] == b0[i]);
                            }
                        }
                        assert forall|m: Matrix| #[trigger] self@.contains(m) && m != k implies prev.contains(m) by {
                            if digest_of(m) == d {
                                let i = choose|i: int| 0 <= i < bucket@.len() && (#[trigger] bucket@[i])@ == m;
                                assert(i < b0.len());
                                assert(bucket@[i] == b0[i]);
                            }
                        }
                        assert(holds(bucket@, k)) by {
                            assert(bucket@[bucket@.len() - 1]@ == k);
                        }
                    }
                    true
                }
            },
            None => {
                let mut bucket: Vec<Fingerprint> = Vec::new();
                bucket.push(key);
                self.buckets.insert(d, bucket);
                assert(self@ =~= prev.insert(k)) by {
                    assert(holds(bucket@, k)) by {
                        assert(bucket@[0]@ == k);
                    }
                    assert forall|m: Matrix| #[trigger] self@.contains(m) && m != k implies prev.contains(m) by {
                        if digest_of(m) == d {
                            let i = choose|i: int| 0 <= i < bucket@.len() && (#[trigger] bucket@[i])@ == m;
                            assert(i == 0);
                        }
                    }
                }
                true
            },
        }
    }
}

} // verus!
