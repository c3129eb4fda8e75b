//! Properties that hold of every run.
use vstd::prelude::*;
use crate::fingerprint::{fingerprint_of, letter, pairs_of, scan, Matrix};
use crate::dedup::{
    ComparisonLength, LineOutcome, outcome_of, run, resolve, window_key, fits,
};

verus! {

/// Equal symbol sequences have equal fingerprints: the fingerprint depends on
/// the symbols alone.
pub proof fn lemma_fingerprint_deterministic(a: Seq<char>, b: Seq<char>)
    requires
        a == b,
    ensures
        fingerprint_of(a) == fingerprint_of(b),
{
}

/// `idx` picks, in increasing order, positions of `b` that hold the items of `a`.
pub open spec fn is_index_map(idx: Seq<int>, a: Seq<Seq<char>>, b: Seq<Seq<char>>) -> bool {
    &&& idx.len() == a.len()
    &&& forall|j: int| 0 <= j < a.len() ==> 0 <= #[trigger] idx[j] < b.len() && b[idx[j]] == a[j]
    &&& forall|j: int, k: int| 0 <= j < k < a.len() ==> #[trigger] idx[j] < #[trigger] idx[k]
}

/// `a` is made of items of `b`, in the order in which `b` holds them.
pub open spec fn in_order_within(a: Seq<Seq<char>>, b: Seq<Seq<char>>) -> bool {
    exists|idx: Seq<int>| is_index_map(idx, a, b)
}

/// The lines that a run keeps appear in the order of the input.
pub proof fn lemma_kept_in_input_order(
    seen: Set<Matrix>,
    length: ComparisonLength,
    lines: Seq<Seq<char>>,
)
    ensures
        in_order_within(run(seen, length, lines).kept, lines),
    decreases lines.len(),
{
    if lines.len() == 0 {
        assert(is_index_map(Seq::empty(), run(seen, length, lines).kept, lines));
    } else {
        let front = lines.drop_last();
        lemma_kept_in_input_order(seen, length, front);
        let idx = choose|idx: Seq<int>| is_index_map(idx, run(seen, length, front).kept, front);
        let before = run(seen, length, front);
        let n = lines.len() - 1;
        if outcome_of(before.seen, before.length, lines.last()) == LineOutcome::Kept {
            let idx2 = idx.push(n);
            assert(is_index_map(idx2, run(seen, length, lines).kept, lines));
        } else {
            assert(is_index_map(idx, run(seen, length, lines).kept, lines));
        }
    }
}

/// The comparison length `length` is, or becomes on the first of `lines`, `l`.
pub open spec fn settles_on(length: ComparisonLength, lines: Seq<Seq<char>>, l: nat) -> bool {
    &&& l <= usize::MAX
    &&& (length == ComparisonLength::Fixed(l as usize) || (length == ComparisonLength::Unresolved
        && (lines.len() > 0 ==> lines[0].len() == l)))
}

/// What every run keeps true, where `l` is the comparison length it settles on.
proof fn lemma_run_invariants(
    seen: Set<Matrix>,
    length: ComparisonLength,
    lines: Seq<Seq<char>>,
    l: nat,
)
    requires
        settles_on(length, lines, l),
    ensures
        ({
            let r = run(seen, length, lines);
            &&& lines.len() > 0 ==> r.length == ComparisonLength::Fixed(l as usize)
            &&& seen.subset_of(r.seen)
            &&& forall|j: int|
                0 <= j < lines.len() && lines[j].len() >= l ==> r.seen.contains(
                    #[trigger] window_key(lines[j], l),
                )
            &&& forall|m: Matrix|
                #[trigger] r.seen.contains(m) ==> seen.contains(m) || exists|j: int|
                    0 <= j < r.kept.len() && window_key(#[trigger] r.kept[j], l) == m
            &&& forall|j: int|
                0 <= j < r.kept.len() ==> (#[trigger] r.kept[j]).len() >= l && !seen.contains(
                    window_key(r.kept[j], l),
                ) && r.seen.contains(window_key(r.kept[j], l))
            &&& forall|j: int, k: int|
                0 <= j < k < r.kept.len() ==> window_key(#[trigger] r.kept[j], l) != window_key(
                    #[trigger] r.kept[k],
                    l,
                )
        }),
    decreases lines.len(),
{
    if lines.len() > 0 {
        let front = lines.drop_last();
        let s = lines.last();
        let n = lines.len() - 1;
        assert(settles_on(length, front, l));
        lemma_run_invariants(seen, length, front, l);
        let before = run(seen, length, front);
        let after = run(seen, length, lines);
        assert(resolve(before.length, s.len()) == l);
        assert(after == crate::dedup::step(before, s));
        let key = window_key(s, l);
        assert forall|j: int|
            0 <= j < lines.len() && lines[j].len() >= l implies after.seen.contains(
                #[trigger] window_key(lines[j], l),
            ) by {
            if j < n {
                assert(lines[j] == front[j]);
            }
        }
        if outcome_of(before.seen, before.length, s) == LineOutcome::Kept {
            assert(after.kept == before.kept.push(s));
            assert forall|m: Matrix| #[trigger] after.seen.contains(m) implies seen.contains(m)
                || exists|j: int| 0 <= j < after.kept.len() && window_key(#[trigger] after.kept[j], l) == m by {
                if m == key {
                    assert(after.kept[n as int - (n - before.kept.len())] == s);
                } else {
                    assert(before.seen.contains(m));
                    if !seen.contains(m) {
                        let j = choose|j: int|
                            0 <= j < before.kept.len() && window_key(#[trigger] before.kept[j], l) == m;
                        assert(after.kept[j] == before.kept[j]);
                    }
                }
            }
            assert forall|j: int, k: int|
                0 <= j < k < after.kept.len() implies window_key(#[trigger] after.kept[j], l)
                != window_key(#[trigger] after.kept[k], l) by {
                if k == before.kept.len() {
                    assert(after.kept[j] == before.kept[j]);
                    assert(before.seen.contains(window_key(before.kept[j], l)));
                } else {
                    assert(after.kept[j] == before.kept[j]);
                    assert(after.kept[k] == before.kept[k]);
                }
            }
            assert forall|j: int|
                0 <= j < after.kept.len() implies (#[trigger] after.kept[j]).len() >= l
                && !seen.contains(window_key(after.kept[j], l)) && after.seen.contains(
                    window_key(after.kept[j], l),
                ) by {
                if j < before.kept.len() {
                    assert(after.kept[j] == before.kept[j]);
                }
            }
        } else {
            assert(after.kept == before.kept);
            assert(after.seen == before.seen);
        }
        assert(seen.subset_of(after.seen));
        assert(after.length == ComparisonLength::Fixed(l as usize));
    }
}

/// A line of one file whose window matches that of a line of an earlier file
/// of the same run is dropped: the registry is shared across files. This
/// holds in particular of a line repeated verbatim.
pub proof fn lemma_repeat_across_files_removed(
    seen: Set<Matrix>,
    length: ComparisonLength,
    a: Seq<Seq<char>>,
    b: Seq<Seq<char>>,
    i: int,
)
    requires
        0 <= i < a.len(),
        fits(a[0]),
        a[i].len() >= resolve(length, a[0].len()),
    ensures
        ({
            let l = resolve(length, a[0].len());
            let ra = run(seen, length, a);
            let rb = run(ra.seen, ra.length, b);
            &&& forall|j: int|
                0 <= j < rb.kept.len() ==> window_key(#[trigger] rb.kept[j], l) != window_key(a[i], l)
            &&& !rb.kept.contains(a[i])
        }),
{
    let l = resolve(length, a[0].len());
    let ra = run(seen, length, a);
    lemma_run_invariants(seen, length, a, l);
    lemma_run_invariants(ra.seen, ra.length, b, l);
    let rb = run(ra.seen, ra.length, b);
    assert(ra.seen.contains(window_key(a[i], l)));
    if rb.kept.contains(a[i]) {
        let j = choose|j: int| 0 <= j < rb.kept.len() && rb.kept[j] == a[i];
        assert(window_key(rb.kept[j], l) == window_key(a[i], l));
    }
}

/// From an empty registry and an unresolved length, the first line is kept
/// and stays first.
proof fn lemma_first_line_kept(length: ComparisonLength, lines: Seq<Seq<char>>)
    requires
        length == ComparisonLength::Unresolved,
        lines.len() > 0,
        fits(lines[0]),
    ensures
        run(Set::empty(), length, lines).kept.len() > 0,
        run(Set::empty(), length, lines).kept[0] == lines[0],
    decreases lines.len(),
{
    let front = lines.drop_last();
    if front.len() > 0 {
        lemma_first_line_kept(length, front);
        let before = run(Set::empty(), length, front);
        let after = run(Set::empty(), length, lines);
        assert(after == crate::dedup::step(before, lines.last()));
        assert(after.kept[0] == before.kept[0]);
    }
}

/// A run over lines whose windows are all long enough and pairwise distinct,
/// from an empty registry, keeps every line.
proof fn lemma_distinct_lines_all_kept(length: ComparisonLength, ks: Seq<Seq<char>>, l: nat)
    requires
        settles_on(length, ks, l),
        forall|j: int| 0 <= j < ks.len() ==> (#[trigger] ks[j]).len() >= l,
        forall|j: int, k: int|
            0 <= j < k < ks.len() ==> window_key(#[trigger] ks[j], l) != window_key(#[trigger] ks[k], l),
    ensures
        run(Set::empty(), length, ks).kept == ks,
    decreases ks.len(),
{
    if ks.len() == 0 {
        assert(run(Set::empty(), length, ks).kept =~= ks);
    } else {
        let front = ks.drop_last();
        let s = ks.last();
        let n = ks.len() - 1;
        assert(settles_on(length, front, l));
        assert forall|j: int, k: int|
            0 <= j < k < front.len() implies window_key(#[trigger] front[j], l) != window_key(
                #[trigger] front[k],
                l,
            ) by {
            assert(front[j] == ks[j]);
            assert(front[k] == ks[k]);
        }
        lemma_distinct_lines_all_kept(length, front, l);
        lemma_run_invariants(Set::empty(), length, front, l);
        let before = run(Set::empty(), length, front);
        assert(resolve(before.length, s.len()) == l);
        if before.seen.contains(window_key(s, l)) {
            let j = choose|j: int|
                0 <= j < before.kept.len() && window_key(#[trigger] before.kept[j], l) == window_key(s, l);
            assert(before.kept[j] == ks[j]);
            assert(window_key(ks[j], l) != window_key(ks[n as int], l));
        }
        assert(run(Set::empty(), length, ks).kept =~= ks);
    }
}

/// Running the deduplication again on what a run kept, from a fresh registry
/// and the same configured length, keeps all of it: nothing more is removed.
pub proof fn lemma_dedup_idempotent(length: ComparisonLength, lines: Seq<Seq<char>>)
    requires
        forall|j: int| 0 <= j < lines.len() ==> fits(#[trigger] lines[j]),
    ensures
        ({
            let once = run(Set::empty(), length, lines).kept;
            run(Set::empty(), length, once).kept == once
        }),
{
    let once = run(Set::empty(), length, lines).kept;
    if lines.len() == 0 {
        assert(once.len() == 0);
        assert(run(Set::empty(), length, once).kept =~= once);
    } else {
        let l = resolve(length, lines[0].len());
        assert(fits(lines[0]));
        lemma_run_invariants(Set::empty(), length, lines, l);
        if length == ComparisonLength::Unresolved {
            lemma_first_line_kept(length, lines);
        }
        lemma_distinct_lines_all_kept(length, once, l);
    }
}

/// Every symbol of `s` is a letter of the alphabet.
pub open spec fn in_alphabet(s: Seq<char>) -> bool {
    forall|i: int|
        0 <= i < s.len() ==> #[trigger] s[i] == 'A' || s[i] == 'T' || s[i] == 'G' || s[i] == 'C'
}

/// The entries of a scanned matrix are natural, each column sums to at least
/// one, and the last update shows in which column sum is the larger.
proof fn lemma_scan_shape(pairs: Seq<(char, char)>)
    ensures
        ({
            let m = scan(pairs);
            &&& m.0 >= 0 && m.1 >= 0 && m.2 >= 0 && m.3 >= 0
            &&& m.0 + m.2 >= 1 && m.1 + m.3 >= 1
            &&& pairs.len() > 0 && pairs.last().0 == pairs.last().1 ==> m.1 + m.3 > m.0 + m.2
            &&& pairs.len() > 0 && pairs.last().0 != pairs.last().1 ==> m.0 + m.2 > m.1 + m.3
        }),
    decreases pairs.len(),
{
    if pairs.len() > 0 {
        lemma_scan_shape(pairs.drop_last());
    }
}

/// Two scans of one length that end on one matrix matched at the same places.
proof fn lemma_scan_injective(p: Seq<(char, char)>, q: Seq<(char, char)>)
    requires
        p.len() == q.len(),
        scan(p) == scan(q),
    ensures
        forall|i: int| 0 <= i < p.len() ==> (#[trigger] p[i].0 == p[i].1) == (q[i].0 == q[i].1),
    decreases p.len(),
{
    if p.len() > 0 {
        lemma_scan_shape(p);
        lemma_scan_shape(q);
        let n = p.len() - 1;
        assert((p.last().0 == p.last().1) == (q.last().0 == q.last().1));
        lemma_scan_injective(p.drop_last(), q.drop_last());
        assert forall|i: int| 0 <= i < p.len() implies (#[trigger] p[i].0 == p[i].1) == (q[i].0
            == q[i].1) by {
            if i < n {
                assert(p[i] == p.drop_last()[i]);
                assert(q[i] == q.drop_last()[i]);
            }
        }
    }
}

/// Distinct sequences of one length over the alphabet have distinct
/// fingerprints.
pub proof fn lemma_distinct_sequences_distinct_fingerprints(a: Seq<char>, b: Seq<char>)
    requires
        a.len() == b.len(),
        a != b,
        in_alphabet(a),
        in_alphabet(b),
    ensures
        fingerprint_of(a) != fingerprint_of(b),
{
    if fingerprint_of(a) == fingerprint_of(b) {
        lemma_scan_injective(pairs_of(a), pairs_of(b));
        assert forall|j: int| 0 <= j < a.len() implies a[j] == b[j] by {
            assert(a[j] == 'A' || a[j] == 'T' || a[j] == 'G' || a[j] == 'C');
            let k: int = if a[j] == 'A' {
                0
            } else if a[j] == 'T' {
                1
            } else if a[j] == 'G' {
                2
            } else {
                3
            };
            let i = 4 * j + k;
            assert(i / 4 == j && i % 4 == k);
            assert(pairs_of(a)[i] == (a[j], letter(k)));
            assert(pairs_of(b)[i] == (b[j], letter(k)));
            assert(letter(k) == a[j]);
            assert(0 <= i < pairs_of(a).len());
            assert((pairs_of(a)[i].0 == pairs_of(a)[i].1) == (pairs_of(b)[i].0 == pairs_of(b)[i].1));
        }
        assert(a =~= b);
    }
}

} // verus!
