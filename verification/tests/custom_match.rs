use osa_edit::get_matrix;
use osa_edit::get_script;
use osa_edit::grid::GridMatrix;
use osa_edit::osa::Matrix;
use osa_edit::vec::VecMatrix;
use osa_edit::EditType::{Delete, Equal, Insert, Sub, Transpose};
use osa_edit::MatchFunction;
use osa_edit::Options;

#[derive(Clone, Copy)]
struct CaseBlind;

impl MatchFunction for CaseBlind {
    fn spec_matches(&self, a: char, b: char) -> bool {
        a.to_ascii_lowercase() == b.to_ascii_lowercase()
    }

    fn matches(&self, a: char, b: char) -> bool {
        a.to_ascii_lowercase() == b.to_ascii_lowercase()
    }
}

#[test]
fn a_custom_predicate_defines_the_matches() {
    let script = get_script::<VecMatrix, CaseBlind>("aBc", "Abd", case_blind());
    assert_eq!(script, vec![Equal, Equal, Sub]);
}

fn case_blind() -> Options<CaseBlind> {
    Options {
        ins_cost: 1,
        del_cost: 1,
        sub_cost: 1,
        transp_cost: 1,
        equals: CaseBlind,
        min_cost_when_target_shorter: false,
    }
}

#[test]
fn matches_under_the_predicate_cost_nothing() {
    let m = get_matrix::<VecMatrix, CaseBlind>("KITTEN", "kitten", case_blind());
    assert_eq!(m.get_last_cell(), 0);
    let script = get_script::<GridMatrix, CaseBlind>("KITTEN", "kitten", case_blind());
    assert_eq!(script, vec![Equal, Equal, Equal, Equal, Equal, Equal]);
}

#[test]
fn swaps_go_by_identity_whatever_the_predicate() {
    let swapped = get_script::<VecMatrix, CaseBlind>("ab", "ba", case_blind());
    assert_eq!(swapped, vec![Transpose, Transpose]);
    let not_swapped = get_script::<VecMatrix, CaseBlind>("ab", "BA", case_blind());
    assert_eq!(not_swapped, vec![Insert, Equal, Delete]);
    let m = get_matrix::<VecMatrix, CaseBlind>("ab", "BA", case_blind());
    assert_eq!(m.matrix, vec![vec![0, 1, 2], vec![1, 1, 1], vec![2, 1, 2]]);
}

#[test]
fn a_predicate_that_goes_both_ways_keeps_the_cost_in_both_directions() {
    for (source, target) in [("Kitten", "sITTing"), ("abc", "CBA"), ("", "Ab"), ("fISh", "IfsH")] {
        let there = get_matrix::<VecMatrix, CaseBlind>(source, target, case_blind());
        let back = get_matrix::<VecMatrix, CaseBlind>(target, source, case_blind());
        assert_eq!(there.get_last_cell(), back.get_last_cell());
    }
}
