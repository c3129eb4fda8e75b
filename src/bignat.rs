//! Arbitrary-precision natural numbers that only ever grow by addition.
use vstd::prelude::*;
use vstd::arithmetic::div_mod::lemma_mod_multiples_vanish;

verus! {

/// The radix of one limb.
pub open spec fn radix() -> int {
    0x1_0000_0000_0000_0000int
}

/// The weight of the limb at position `e`: `radix()` to the power `e`.
pub open spec fn place(e: nat) -> int
    decreases e,
{
    if e == 0 {
        1
    } else {
        radix() * place((e - 1) as nat)
    }
}

/// The value of little-endian limbs in base `radix()`.
pub open spec fn limbs_value(s: Seq<u64>) -> nat
    decreases s.len(),
{
    if s.len() == 0 {
        0
    } else {
        (limbs_value(s.drop_last()) + s.last() as int * place((s.len() - 1) as nat)) as nat
    }
}

/// A natural number of any size, held as little-endian 64-bit limbs.
pub struct BigNat {
    limbs: Vec<u64>,
}

impl View for BigNat {
    type V = nat;

    closed spec fn view(&self) -> nat {
        limbs_value(self.limbs@)
    }
}

proof fn lemma_pow_positive(e: nat)
    ensures
        place(e) >= 1,
    decreases e,
{
    if e > 0 {
        lemma_pow_positive((e - 1) as nat);
        assert(place(e) == radix() * place((e - 1) as nat));
        let p = place((e - 1) as nat);
        let r = radix();
        assert(r * p >= 1) by (nonlinear_arith)
            requires
                p >= 1,
                r > 1,
        ;
    }
}

/// The value of a limb sequence is below `radix()` to the power of its length.
proof fn lemma_value_bound(s: Seq<u64>)
    ensures
        limbs_value(s) < place(s.len()),
    decreases s.len(),
{
    if s.len() > 0 {
        let n = (s.len() - 1) as nat;
        lemma_value_bound(s.drop_last());
        lemma_pow_positive(n);
        let p = place(n);
        assert(place(s.len()) == radix() * p);
        let v = limbs_value(s.drop_last()) as int;
        let l = s.last() as int;
        let r = radix();
        assert(v + l * p < r * p) by (nonlinear_arith)
            requires
                v < p,
                p >= 1,
                0 <= l,
                l + 1 <= r,
        ;
    }
}

/// Appending a zero limb keeps the value.
proof fn lemma_push_zero(s: Seq<u64>)
    ensures
        limbs_value(s.push(0)) == limbs_value(s),
{
    let t = s.push(0);
    assert(t.drop_last() =~= s);
    assert(t.last() == 0);
    assert(t.last() as int * place(s.len()) == 0);
}

/// Two limb sequences of one length with one value are equal.
proof fn lemma_value_injective(a: Seq<u64>, b: Seq<u64>)
    requires
        a.len() == b.len(),
        limbs_value(a) == limbs_value(b),
    ensures
        a == b,
    decreases a.len(),
{
    if a.len() > 0 {
        let n = (a.len() - 1) as nat;
        let p = place(n);
        lemma_value_bound(a.drop_last());
        lemma_value_bound(b.drop_last());
        lemma_pow_positive(n);
        let va = limbs_value(a.drop_last()) as int;
        let vb = limbs_value(b.drop_last()) as int;
        let la = a.last() as int;
        let lb = b.last() as int;
        assert(la == lb) by (nonlinear_arith)
            requires
                0 <= va < p,
                0 <= vb < p,
                va + la * p == vb + lb * p,
        ;
        lemma_value_injective(a.drop_last(), b.drop_last());
        assert(a =~= a.drop_last().push(la as u64));
        assert(b =~= b.drop_last().push(lb as u64));
    }
}

/// `k` zero limbs.
pub open spec fn zero_limbs(k: nat) -> Seq<u64> {
    Seq::new(k, |j: int| 0u64)
}

/// Appending zero limbs keeps the value.
proof fn lemma_pad_zeros(s: Seq<u64>, k: nat)
    ensures
        limbs_value(s + zero_limbs(k)) == limbs_value(s),
    decreases k,
{
    if k == 0 {
        assert(s + zero_limbs(0) =~= s);
    } else {
        let k1 = (k - 1) as nat;
        lemma_pad_zeros(s, k1);
        assert(s + zero_limbs(k) =~= (s + zero_limbs(k1)).push(0));
        lemma_push_zero(s + zero_limbs(k1));
    }
}

/// The value of a prefix one limb longer.
proof fn lemma_take_step(s: Seq<u64>, i: int)
    requires
        0 <= i < s.len(),
    ensures
        limbs_value(s.take(i + 1)) == limbs_value(s.take(i)) + s[i] as int * place(i as nat),
{
    let t = s.take(i + 1);
    assert(t.drop_last() =~= s.take(i));
    assert(t.last() == s[i]);
    lemma_pow_positive(i as nat);
}

/// The lowest limb is the value modulo `radix()`.
proof fn lemma_low_limb(s: Seq<u64>)
    ensures
        s.len() == 0 ==> (limbs_value(s) as int) % radix() == 0,
        s.len() > 0 ==> (limbs_value(s) as int) % radix() == s[0] as int,
    decreases s.len(),
{
    if s.len() == 1 {
        assert(s.drop_last() =~= Seq::<u64>::empty());
        assert(place(0) == 1);
        assert(limbs_value(s.drop_last()) == 0);
        assert(s.last() == s[0]);
        assert(limbs_value(s) == s[0]);
    } else if s.len() > 1 {
        let front = s.drop_last();
        let n = (s.len() - 2) as nat;
        lemma_low_limb(front);
        lemma_pow_positive(n);
        let b = s.last() as int * place(n);
        assert(place((n + 1) as nat) == radix() * place(n));
        let l = s.last() as int;
        let p = place(n);
        let r = radix();
        assert(l * (r * p) == r * b) by (nonlinear_arith)
            requires
                b == l * p,
        ;
        assert(b >= 0) by (nonlinear_arith)
            requires
                b == l * p,
                l >= 0,
                p >= 1,
        ;
        assert(limbs_value(s) as int == r * b + limbs_value(front));
        lemma_mod_multiples_vanish(b, limbs_value(front) as int, radix());
        assert(front[0] == s[0]);
    }
}

impl BigNat {
    /// The number `v`.
    pub fn from_u64(v: u64) -> (r: BigNat)
        ensures
            r@ == v,
    {
        let r = BigNat { limbs: vec![v] };
        proof {
            assert(r.limbs@.len() == 1);
            assert(r.limbs@.drop_last() =~= Seq::<u64>::empty());
            assert(limbs_value(Seq::<u64>::empty()) == 0);
            assert(place(0) == 1);
        }
        r
    }

    /// The limb at position `j`, zero past the stored limbs.
    fn limb(&self, j: usize) -> (r: u64)
        ensures
            j < self.limbs.len() ==> r == self.limbs@[j as int],
            j >= self.limbs.len() ==> r == 0,
    {
        if j < self.limbs.len() {
            self.limbs[j]
        } else {
            0
        }
    }

    /// The number modulo `radix()`: its lowest 64 bits.
    pub fn low_bits(&self) -> (r: u64)
        ensures
            r as int == (self@ as int) % radix(),
    {
        proof {
            lemma_low_limb(self.limbs@);
        }
        if self.limbs.len() == 0 {
            0
        } else {
            self.limbs[0]
        }
    }

    /// Adds `other` into `self`.
    pub fn add_assign(&mut self, other: &BigNat)
        ensures
            final(self)@ == old(self)@ + other@,
    {
        while self.limbs.len() < other.limbs.len()
            invariant
                self@ == old(self)@,
            decreases other.limbs.len() - self.limbs.len(),
        {
            proof {
                lemma_push_zero(self.limbs@);
            }
            self.limbs.push(0);
        }
        let ghost a0 = self.limbs@;
        let n = self.limbs.len();
        let ghost b0 = other.limbs@ + zero_limbs((n - other.limbs.len()) as nat);
        proof {
            lemma_pad_zeros(other.limbs@, (n - other.limbs.len()) as nat);
            assert(a0.take(0) =~= Seq::<u64>::empty());
            assert(b0.take(0) =~= Seq::<u64>::empty());
            assert(self.limbs@.take(0) =~= Seq::<u64>::empty());
        }
        let mut carry: u64 = 0;
        let mut i: usize = 0;
        while i < n
            invariant
                n == self.limbs.len() == a0.len() == b0.len(),
                other.limbs.len() <= n,
                b0 == other.limbs@ + zero_limbs((n - other.limbs.len()) as nat),
                limbs_value(a0) == old(self)@,
                limbs_value(b0) == other@,
                i <= n,
                carry <= 1,
                forall|j: int| i <= j < n ==> self.limbs@[j] == a0[j],
                limbs_value(self.limbs@.take(i as int)) + carry as int * place(i as nat)
                    == limbs_value(a0.take(i as int)) + limbs_value(b0.take(i as int)),
            decreases n - i,
        {
            let y: u64 = other.limb(i);
            let x: u128 = self.limbs[i] as u128 + y as u128 + carry as u128;
            let lo: u64 = (x % 0x1_0000_0000_0000_0000u128) as u64;
            let hi: u64 = (x / 0x1_0000_0000_0000_0000u128) as u64;
            let ghost prev = self.limbs@;
            self.limbs.set(i, lo);
            proof {
                let ii = i as int;
                assert(b0[ii] == y);
                assert(self.limbs@.take(ii) =~= prev.take(ii));
                lemma_take_step(self.limbs@, ii);
                lemma_take_step(a0, ii);
                lemma_take_step(b0, ii);
                let p = place(i as nat);
                let r = radix();
                assert(place((i + 1) as nat) == r * p);
                let c = carry as int;
                let c2 = hi as int;
                let l = lo as int;
                let av = a0[ii] as int;
                let bv = b0[ii] as int;
                assert(l + c2 * r == av + bv + c);
                assert(l * p + c2 * (r * p) == av * p + bv * p + c * p) by (nonlinear_arith)
                    requires
                        l + c2 * r == av + bv + c,
                ;
            }
            carry = hi;
            i = i + 1;
        }
        proof {
            assert(self.limbs@.take(n as int) =~= self.limbs@);
            assert(a0.take(n as int) =~= a0);
            assert(b0.take(n as int) =~= b0);
        }
        if carry > 0 {
            let ghost prev = self.limbs@;
            self.limbs.push(carry);
            proof {
                assert(self.limbs@.drop_last() =~= prev);
            }
        }
    }

    /// Whether `self` and `other` are the same number.
    pub fn eq_value(&self, other: &BigNat) -> (r: bool)
        ensures
            r == (self@ == other@),
    {
        let n: usize = if self.limbs.len() < other.limbs.len() {
            other.limbs.len()
        } else {
            self.limbs.len()
        };
        let ghost pa = self.limbs@ + zero_limbs((n - self.limbs.len()) as nat);
        let ghost pb = other.limbs@ + zero_limbs((n - other.limbs.len()) as nat);
        proof {
            lemma_pad_zeros(self.limbs@, (n - self.limbs.len()) as nat);
            lemma_pad_zeros(other.limbs@, (n - other.limbs.len()) as nat);
        }
        let mut j: usize = 0;
        while j < n
            invariant
                j <= n,
                pa.len() == n,
                pb.len() == n,
                pa == self.limbs@ + zero_limbs((n - self.limbs.len()) as nat),
                pb == other.limbs@ + zero_limbs((n - other.limbs.len()) as nat),
                limbs_value(pa) == self@,
                limbs_value(pb) == other@,
                forall|k: int| 0 <= k < j ==> pa[k] == pb[k],
            decreases n - j,
        {
            if self.limb(j) != other.limb(j) {
                proof {
                    assert(pa[j as int] != pb[j as int]);
                    if self@ == other@ {
                        lemma_value_injective(pa, pb);
                    }
                }
                return false;
            }
            j = j + 1;
        }
        proof {
            assert(pa =~= pb);
        }
        true
    }
}

} // verus!
