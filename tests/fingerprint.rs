use dna_dedup::bignat::BigNat;
use dna_dedup::dedup::symbols_of;
use dna_dedup::fingerprint::{fingerprint, Fingerprint, NUCL};
use rand::rngs::ThreadRng;
use rand::Rng;

fn gen_random_dna(rng: &mut ThreadRng, length: usize) -> String {
    (0..length).map(|_| NUCL[rng.gen_range(0..4)]).collect()
}

fn gen_other_seq(rng: &mut ThreadRng, seq: &str) -> String {
    let seq_candidate = gen_random_dna(rng, 200);
    if seq_candidate != seq {
        seq_candidate
    } else {
        gen_other_seq(rng, seq)
    }
}

fn fp(s: &str) -> Fingerprint {
    fingerprint(&symbols_of(s))
}

fn entries_are(f: &Fingerprint, e: [u64; 4]) -> bool {
    f.s00.eq_value(&BigNat::from_u64(e[0]))
        && f.s01.eq_value(&BigNat::from_u64(e[1]))
        && f.s10.eq_value(&BigNat::from_u64(e[2]))
        && f.s11.eq_value(&BigNat::from_u64(e[3]))
}

#[test]
fn same_sequence_is_the_same() {
    let mut rng = rand::thread_rng();
    let seq1: String = gen_random_dna(&mut rng, 200);
    assert!(fp(seq1.as_str()).same_as(&fp(seq1.as_str())));
}

#[test]
fn diff_sequences_are_the_diff() {
    let mut rng = rand::thread_rng();
    let seq1: String = gen_random_dna(&mut rng, 200);
    let seq2: String = gen_other_seq(&mut rng, seq1.as_str());
    assert!(!fp(seq1.as_str()).same_as(&fp(seq2.as_str())));
}

#[test]
fn many_random_pairs_differ() {
    let mut rng = rand::thread_rng();
    for _ in 0..300 {
        let a = gen_random_dna(&mut rng, 120);
        let b = gen_random_dna(&mut rng, 120);
        if a != b {
            assert!(!fp(a.as_str()).same_as(&fp(b.as_str())));
        }
    }
}

#[test]
fn empty_sequence_is_the_seed() {
    assert!(entries_are(&fp(""), [1, 0, 0, 1]));
}

#[test]
fn one_symbol_exact_entries() {
    assert!(entries_are(&fp("A"), [4, 1, 3, 1]));
    assert!(!entries_are(&fp("A"), [1, 0, 0, 1]));
}

#[test]
fn two_symbols_exact_entries() {
    assert!(entries_are(&fp("AT"), [17, 6, 14, 5]));
}

#[test]
fn symbol_order_matters() {
    assert!(!fp("AT").same_as(&fp("TA")));
    assert!(!fp("ACGT").same_as(&fp("TGCA")));
}

#[test]
fn long_sequences_are_exact() {
    let a: String = "A".repeat(200);
    let mut b: String = "A".repeat(199);
    b.push('T');
    assert!(fp(&a).same_as(&fp(&a.clone())));
    assert!(!fp(&a).same_as(&fp(&b)));
}

#[test]
fn big_numbers_carry() {
    let mut a = BigNat::from_u64(u64::MAX);
    let a2 = BigNat::from_u64(u64::MAX);
    a.add_assign(&a2);
    let mut b = BigNat::from_u64(u64::MAX - 1);
    b.add_assign(&BigNat::from_u64(u64::MAX));
    assert!(!a.eq_value(&b));
    b.add_assign(&BigNat::from_u64(0));
    assert!(!a.eq_value(&b));
    b.add_assign(&BigNat::from_u64(1));
    assert!(a.eq_value(&b));
    assert!(b.eq_value(&a));
    assert!(!a.eq_value(&BigNat::from_u64(u64::MAX)));
}
