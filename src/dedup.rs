//! The decision, line by line, of what a run keeps.
use vstd::prelude::*;
use vstd::std_specs::iter::IteratorSpec;
use crate::fingerprint::{fingerprint, fingerprint_of, Matrix};
use crate::registry::Registry;

verus! {

broadcast use {vstd::string::axiom_spec_iter, vstd::string::next_postcondition};

/// The number of leading symbols of each line that its fingerprint covers:
/// not known until the first line is read, or fixed for the rest of the run.
#[derive(PartialEq, Eq, Structural, Clone, Copy, Debug)]
pub enum ComparisonLength {
    Unresolved,
    Fixed(usize),
}

/// What becomes of one line.
#[derive(PartialEq, Eq, Structural, Clone, Copy, Debug)]
pub enum LineOutcome {
    /// Its fingerprint is new: the line is written out.
    Kept,
    /// Its fingerprint was seen before: the line is dropped.
    Duplicate,
    /// It is shorter than the comparison length: the line is dropped and the
    /// registry is left alone.
    TooShort,
}

/// The comparison length that applies to a line of `line_len` symbols.
pub open spec fn resolve(length: ComparisonLength, line_len: nat) -> nat {
    match length {
        ComparisonLength::Unresolved => line_len,
        ComparisonLength::Fixed(l) => l as nat,
    }
}

/// The fingerprint of the first `l` symbols of `s`.
pub open spec fn window_key(s: Seq<char>, l: nat) -> Matrix {
    fingerprint_of(s.take(l as int))
}

/// Whether a line of `s` symbols can be handled: its pairs with the alphabet
/// can be counted in a `usize`.
pub open spec fn fits(s: Seq<char>) -> bool {
    s.len() * 4 <= usize::MAX
}

/// What becomes of the line `s`, given the fingerprints seen so far.
pub open spec fn outcome_of(seen: Set<Matrix>, length: ComparisonLength, s: Seq<char>) -> LineOutcome {
    let l = resolve(length, s.len());
    if s.len() < l {
        LineOutcome::TooShort
    } else if seen.contains(window_key(s, l)) {
        LineOutcome::Duplicate
    } else {
        LineOutcome::Kept
    }
}

/// The comparison length once the line `s` has been read.
pub open spec fn length_after(length: ComparisonLength, s: Seq<char>) -> ComparisonLength {
    ComparisonLength::Fixed(resolve(length, s.len()) as usize)
}

/// The fingerprints seen once the line `s` has been handled.
pub open spec fn seen_after(seen: Set<Matrix>, length: ComparisonLength, s: Seq<char>) -> Set<Matrix> {
    if outcome_of(seen, length, s) == LineOutcome::Kept {
        seen.insert(window_key(s, resolve(length, s.len())))
    } else {
        seen
    }
}

/// Fixes the comparison length on the first line, and returns the length
/// that applies to a line of `line_len` symbols.
pub fn resolve_length(length: &mut ComparisonLength, line_len: usize) -> (l: usize)
    ensures
        l == resolve(*old(length), line_len as nat),
        *final(length) == ComparisonLength::Fixed(l),
{
    match *length {
        ComparisonLength::Fixed(l) => l,
        ComparisonLength::Unresolved => {
            *length = ComparisonLength::Fixed(line_len);
            line_len
        },
    }
}

/// The first `l` symbols of `s`.
fn prefix(s: &Vec<char>, l: usize) -> (r: Vec<char>)
    requires
        l <= s.len(),
    ensures
        r@ == s@.take(l as int),
{
    let mut r: Vec<char> = Vec::new();
    let mut i: usize = 0;
    while i < l
        invariant
            i <= l <= s.len(),
            r@ == s@.take(i as int),
        decreases l - i,
    {
        r.push(s[i]);
        proof {
            assert(r@ =~= s@.take(i + 1));
        }
        i = i + 1;
    }
    r
}

/// Handles one line: fixes the comparison length if this is the run's first
/// line, then keeps the line if its window's fingerprint is new, recording
/// it, or drops it.
pub fn process_line(line: &str, length: &mut ComparisonLength, registry: &mut Registry) -> (r: LineOutcome)
    requires
        fits(line@),
    ensures
        r == outcome_of(old(registry)@, *old(length), line@),
        *final(length) == length_after(*old(length), line@),
        final(registry)@ == seen_after(old(registry)@, *old(length), line@),
{
    let symbols = symbols_of(line);
    let l = resolve_length(length, symbols.len());
    if symbols.len() < l {
        return LineOutcome::TooShort;
    }
    let window = prefix(&symbols, l);
    let key = fingerprint(&window);
    if registry.insert_if_absent(key) {
        LineOutcome::Kept
    } else {
        LineOutcome::Duplicate
    }
}

/// The symbols of `line`, in order.
pub fn symbols_of(line: &str) -> (r: Vec<char>)
    ensures
        r@ == line@,
{
    let mut it = line.chars();
    let mut r: Vec<char> = Vec::new();
    loop
        invariant
            r@ + it.remaining() == line@,
            it.decrease() is Some,
        ensures
            r@ == line@,
        decreases it.decrease()->0,
    {
        match it.next() {
            Some(c) => {
                r.push(c);
            },
            None => {
                assert(r@ =~= r@ + it.remaining());
                break;
            },
        }
    }
    r
}

} // verus!

verus! {

/// The state of a run after some lines: the fingerprints seen, the comparison
/// length, the lines kept in order, and how many were dropped as duplicates
/// and as too short.
pub struct Run {
    pub seen: Set<Matrix>,
    pub length: ComparisonLength,
    pub kept: Seq<Seq<char>>,
    pub removed: nat,
    pub short: nat,
}

/// The run after one more line `s`.
pub open spec fn step(r: Run, s: Seq<char>) -> Run {
    let o = outcome_of(r.seen, r.length, s);
    Run {
        seen: seen_after(r.seen, r.length, s),
        length: length_after(r.length, s),
        kept: if o == LineOutcome::Kept { r.kept.push(s) } else { r.kept },
        removed: if o == LineOutcome::Duplicate { r.removed + 1 } else { r.removed },
        short: if o == LineOutcome::TooShort { r.short + 1 } else { r.short },
    }
}

/// The run over `lines`, from the fingerprints `seen` and the comparison
/// length `length`, with nothing kept or dropped yet.
pub open spec fn run(seen: Set<Matrix>, length: ComparisonLength, lines: Seq<Seq<char>>) -> Run
    decreases lines.len(),
{
    if lines.len() == 0 {
        Run { seen, length, kept: Seq::empty(), removed: 0, short: 0 }
    } else {
        step(run(seen, length, lines.drop_last()), lines.last())
    }
}

/// The text of each string.
pub open spec fn texts(v: Seq<String>) -> Seq<Seq<char>> {
    v.map_values(|s: String| s@)
}

/// What one input file leaves: the lines to write, in order, and how many
/// lines were dropped as duplicates and as too short.
pub struct FileReport {
    pub kept: Vec<String>,
    pub removed: usize,
    pub short: usize,
}

/// Handles the lines of one file in order, against the registry and the
/// comparison length that the run shares across files.
pub fn process_lines(
    lines: &Vec<String>,
    length: &mut ComparisonLength,
    registry: &mut Registry,
) -> (report: FileReport)
    requires
        forall|i: int| 0 <= i < lines.len() ==> fits(#[trigger] lines@[i]@),
    ensures
        texts(report.kept@) == run(old(registry)@, *old(length), texts(lines@)).kept,
        report.removed == run(old(registry)@, *old(length), texts(lines@)).removed,
        report.short == run(old(registry)@, *old(length), texts(lines@)).short,
        final(registry)@ == run(old(registry)@, *old(length), texts(lines@)).seen,
        *final(length) == run(old(registry)@, *old(length), texts(lines@)).length,
{
    let ghost seen0 = registry@;
    let ghost length0 = *length;
    let ghost all = texts(lines@);
    let mut kept: Vec<String> = Vec::new();
    let mut removed: usize = 0;
    let mut short: usize = 0;
    let mut i: usize = 0;
    proof {
        assert(all.take(0) =~= Seq::<Seq<char>>::empty());
        assert(texts(kept@) =~= Seq::<Seq<char>>::empty());
    }
    while i < lines.len()
        invariant
            i <= lines.len(),
            all == texts(lines@),
            forall|j: int| 0 <= j < lines.len() ==> fits(#[trigger] lines@[j]@),
            removed + short + kept.len() == i,
            texts(kept@) == run(seen0, length0, all.take(i as int)).kept,
            removed == run(seen0, length0, all.take(i as int)).removed,
            short == run(seen0, length0, all.take(i as int)).short,
            registry@ == run(seen0, length0, all.take(i as int)).seen,
            *length == run(seen0, length0, all.take(i as int)).length,
        decreases lines.len() - i,
    {
        let ghost prev = texts(kept@);
        let line = &lines[i];
        let outcome = process_line(line.as_str(), length, registry);
        match outcome {
            LineOutcome::Kept => {
                kept.push(line.clone());
            },
            LineOutcome::Duplicate => {
                removed = removed + 1;
            },
            LineOutcome::TooShort => {
                short = short + 1;
            },
        }
        proof {
            assert(all.take(i + 1).drop_last() =~= all.take(i as int));
            assert(all.take(i + 1).last() == lines@[i as int]@);
            if outcome == LineOutcome::Kept {
                assert(texts(kept@) =~= prev.push(lines@[i as int]@));
            } else {
                assert(texts(kept@) =~= prev);
            }
        }
        i = i + 1;
    }
    proof {
        assert(all.take(i as int) =~= all);
    }
    FileReport { kept, removed, short }
}

} // verus!
