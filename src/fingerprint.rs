//! The fingerprint of a sequence: a 2×2 matrix of natural numbers built by
//! one scan over every (symbol, alphabet letter) pair.
use vstd::prelude::*;
use itertools::Itertools;
use crate::bignat::BigNat;

verus! {

/// The alphabet, in the order in which each symbol is tested against it.
pub const NUCL: [char; 4] = ['A', 'T', 'G', 'C'];

/// The letter of `NUCL` at position `k` (`0 <= k < 4`).
pub open spec fn letter(k: int) -> char {
    if k == 0 {
        'A'
    } else if k == 1 {
        'T'
    } else if k == 2 {
        'G'
    } else {
        'C'
    }
}

/// The matrix `[[s00, s01], [s10, s11]]` as the tuple `(s00, s01, s10, s11)`.
pub type Matrix = (int, int, int, int);

/// The matrix before any symbol is read.
pub open spec fn seed() -> Matrix {
    (1, 0, 0, 1)
}

/// One update of both rows: on a match each row adds its first entry into
/// its second, otherwise its second entry into its first.
pub open spec fn update(m: Matrix, matched: bool) -> Matrix {
    if matched {
        (m.0, m.1 + m.0, m.2, m.3 + m.2)
    } else {
        (m.0 + m.1, m.1, m.2 + m.3, m.3)
    }
}

/// The matrix after updating the seed once for each pair, in order, with
/// whether the pair's two characters are equal.
pub open spec fn scan(pairs: Seq<(char, char)>) -> Matrix
    decreases pairs.len(),
{
    if pairs.len() == 0 {
        seed()
    } else {
        update(scan(pairs.drop_last()), pairs.last().0 == pairs.last().1)
    }
}

/// Every symbol of `s` paired with every letter of the alphabet, symbol-major.
pub open spec fn pairs_of(s: Seq<char>) -> Seq<(char, char)> {
    Seq::new(s.len() * 4, |i: int| (s[i / 4], letter(i % 4)))
}

/// The fingerprint of the symbols `s`.
pub open spec fn fingerprint_of(s: Seq<char>) -> Matrix {
    scan(pairs_of(s))
}

/// Relies on itertools::Itertools::cartesian_product: it yields each item of
/// the first iterator paired with each item of the second, in order,
/// the first iterator's items outermost.
#[verifier::external_body]
fn symbol_letter_pairs(symbols: &Vec<char>) -> (r: Vec<(char, char)>)
    ensures
        r@ == pairs_of(symbols@),
{
    symbols.iter().copied().cartesian_product(NUCL).collect()
}

/// The fingerprint of a sequence, held exactly.
pub struct Fingerprint {
    pub s00: BigNat,
    pub s01: BigNat,
    pub s10: BigNat,
    pub s11: BigNat,
}

impl View for Fingerprint {
    type V = Matrix;

    open spec fn view(&self) -> Matrix {
        (self.s00@ as int, self.s01@ as int, self.s10@ as int, self.s11@ as int)
    }
}

impl Fingerprint {
    /// Whether `self` and `other` are the same fingerprint.
    pub fn same_as(&self, other: &Fingerprint) -> (r: bool)
        ensures
            r == (self@ == other@),
    {
        self.s00.eq_value(&other.s00) && self.s01.eq_value(&other.s01) && self.s10.eq_value(
            &other.s10,
        ) && self.s11.eq_value(&other.s11)
    }
}

/// Computes the fingerprint of `symbols`.
pub fn fingerprint(symbols: &Vec<char>) -> (r: Fingerprint)
    requires
        symbols.len() * 4 <= usize::MAX,
    ensures
        r@ == fingerprint_of(symbols@),
{
    let pairs = symbol_letter_pairs(symbols);
    let mut s00 = BigNat::from_u64(1);
    let mut s01 = BigNat::from_u64(0);
    let mut s10 = BigNat::from_u64(0);
    let mut s11 = BigNat::from_u64(1);
    let mut i: usize = 0;
    proof {
        assert(pairs@.take(0) =~= Seq::<(char, char)>::empty());
    }
    while i < pairs.len()
        invariant
            i <= pairs.len(),
            pairs@ == pairs_of(symbols@),
            (s00@ as int, s01@ as int, s10@ as int, s11@ as int) == scan(pairs@.take(i as int)),
        decreases pairs.len() - i,
    {
        let (symbol, base) = pairs[i];
        if symbol == base {
            s01.add_assign(&s00);
            s11.add_assign(&s10);
        } else {
            s00.add_assign(&s01);
            s10.add_assign(&s11);
        }
        proof {
            assert(pairs@.take(i + 1).drop_last() =~= pairs@.take(i as int));
        }
        i = i + 1;
    }
    proof {
        assert(pairs@.take(i as int) =~= pairs@);
    }
    Fingerprint { s00, s01, s10, s11 }
}

} // verus!
