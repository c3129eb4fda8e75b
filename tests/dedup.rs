use dna_dedup::args::Args;
use dna_dedup::dedup::{process_line, process_lines, resolve_length, ComparisonLength, LineOutcome};
use dna_dedup::registry::Registry;

fn lines(v: &[&str]) -> Vec<String> {
    v.iter().map(|s| s.to_string()).collect()
}

#[test]
fn inferred_length_drops_repeat() {
    let mut reg = Registry::new();
    let mut len = ComparisonLength::Unresolved;
    let r = process_lines(&lines(&["AAAA", "AAAA", "ATGC"]), &mut len, &mut reg);
    assert_eq!(r.kept, lines(&["AAAA", "ATGC"]));
    assert_eq!(r.removed, 1);
    assert_eq!(r.short, 0);
    assert_eq!(len, ComparisonLength::Fixed(4));
}

#[test]
fn explicit_length_shared_prefix_across_files() {
    let mut reg = Registry::new();
    let mut len = ComparisonLength::Fixed(2);
    let a = process_lines(&lines(&["AAAA"]), &mut len, &mut reg);
    assert_eq!(a.kept, lines(&["AAAA"]));
    assert_eq!(a.removed, 0);
    let b = process_lines(&lines(&["AAGG"]), &mut len, &mut reg);
    assert!(b.kept.is_empty());
    assert_eq!(b.removed, 1);
}

#[test]
fn repeat_across_files_is_removed() {
    let mut reg = Registry::new();
    let mut len = ComparisonLength::Unresolved;
    let a = process_lines(&lines(&["ACGT", "TTTT"]), &mut len, &mut reg);
    assert_eq!(a.kept, lines(&["ACGT", "TTTT"]));
    let b = process_lines(&lines(&["GGGG", "TTTT"]), &mut len, &mut reg);
    assert_eq!(b.kept, lines(&["GGGG"]));
    assert_eq!(b.removed, 1);

    let mut alone = Registry::new();
    let mut len2 = ComparisonLength::Unresolved;
    let b2 = process_lines(&lines(&["GGGG", "TTTT"]), &mut len2, &mut alone);
    assert_eq!(b2.kept, lines(&["GGGG", "TTTT"]));
    assert_eq!(b2.removed, 0);
}

#[test]
fn kept_lines_keep_input_order() {
    let mut reg = Registry::new();
    let mut len = ComparisonLength::Unresolved;
    let r = process_lines(
        &lines(&["CCCC", "AAAA", "CCCC", "GGGG", "AAAA", "TTTT"]),
        &mut len,
        &mut reg,
    );
    assert_eq!(r.kept, lines(&["CCCC", "AAAA", "GGGG", "TTTT"]));
    assert_eq!(r.removed, 2);
}

#[test]
fn second_pass_removes_nothing() {
    let input = lines(&["ACGT", "ACGT", "TTAA", "ACGA", "TTAA", "GGGG"]);
    let mut reg = Registry::new();
    let mut len = ComparisonLength::Unresolved;
    let once = process_lines(&input, &mut len, &mut reg);
    let mut reg2 = Registry::new();
    let mut len2 = ComparisonLength::Unresolved;
    let twice = process_lines(&once.kept, &mut len2, &mut reg2);
    assert_eq!(twice.kept, once.kept);
    assert_eq!(twice.removed, 0);
    assert_eq!(once.kept, lines(&["ACGT", "TTAA", "ACGA", "GGGG"]));
}

#[test]
fn trailing_symbols_are_ignored_but_kept_verbatim() {
    let mut reg = Registry::new();
    let mut len = ComparisonLength::Fixed(3);
    let r = process_lines(&lines(&["ACGTT", "ACGAA", "ACCAA"]), &mut len, &mut reg);
    assert_eq!(r.kept, lines(&["ACGTT", "ACCAA"]));
    assert_eq!(r.removed, 1);
}

#[test]
fn short_line_is_skipped_and_not_recorded() {
    let mut reg = Registry::new();
    let mut len = ComparisonLength::Unresolved;
    assert_eq!(process_line("ACGT", &mut len, &mut reg), LineOutcome::Kept);
    assert_eq!(process_line("AC", &mut len, &mut reg), LineOutcome::TooShort);
    assert_eq!(len, ComparisonLength::Fixed(4));
    assert_eq!(process_line("ACGT", &mut len, &mut reg), LineOutcome::Duplicate);
    let r = process_lines(&lines(&["A", "TTTT", "TTTT"]), &mut len, &mut reg);
    assert_eq!(r.kept, lines(&["TTTT"]));
    assert_eq!(r.short, 1);
    assert_eq!(r.removed, 1);
}

#[test]
fn empty_first_line_fixes_zero_length() {
    let mut reg = Registry::new();
    let mut len = ComparisonLength::Unresolved;
    let r = process_lines(&lines(&["", "ACGT", "TTTT"]), &mut len, &mut reg);
    assert_eq!(r.kept, lines(&[""]));
    assert_eq!(r.removed, 2);
    assert_eq!(len, ComparisonLength::Fixed(0));
}

#[test]
fn empty_file_leaves_length_unresolved() {
    let mut reg = Registry::new();
    let mut len = ComparisonLength::Unresolved;
    let r = process_lines(&Vec::new(), &mut len, &mut reg);
    assert!(r.kept.is_empty());
    assert_eq!(r.removed, 0);
    assert_eq!(len, ComparisonLength::Unresolved);
}

#[test]
fn registry_insert_if_absent() {
    let mut reg = Registry::new();
    let k = dna_dedup::fingerprint::fingerprint(&vec!['A', 'C']);
    assert!(!reg.contains(&k));
    assert!(reg.insert_if_absent(dna_dedup::fingerprint::fingerprint(&vec!['A', 'C'])));
    assert!(reg.contains(&k));
    assert!(!reg.insert_if_absent(k));
}

#[test]
fn length_is_set_once() {
    let mut len = ComparisonLength::Unresolved;
    assert_eq!(resolve_length(&mut len, 7), 7);
    assert_eq!(resolve_length(&mut len, 3), 7);
    assert_eq!(len, ComparisonLength::Fixed(7));
}

#[test]
fn args_give_initial_length() {
    let a = Args { input_dir: "in".to_string(), output_dir: "out".to_string(), length: Some(5) };
    assert_eq!(a.initial_length(), ComparisonLength::Fixed(5));
    let b = Args { input_dir: "in".to_string(), output_dir: "out".to_string(), length: None };
    assert_eq!(b.initial_length(), ComparisonLength::Unresolved);
}
