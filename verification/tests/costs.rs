use osa_edit::chars_of;
use osa_edit::default_options;
use osa_edit::default_options_with_sub;
use osa_edit::get_matrix;
use osa_edit::get_script;
use osa_edit::identical_chars;
use osa_edit::osa::Matrix;
use osa_edit::vec::VecMatrix;
use osa_edit::EditType::{Delete, Equal, Insert, Sub, Transpose};
use osa_edit::IdenticalChars;
use osa_edit::MatchFunction;
use osa_edit::MatrixType;
use osa_edit::Options;

fn costs(ins: usize, del: usize, sub: usize, transp: usize) -> Options {
    Options {
        ins_cost: ins,
        del_cost: del,
        sub_cost: sub,
        transp_cost: transp,
        equals: IdenticalChars,
        min_cost_when_target_shorter: false,
    }
}

#[test]
fn default_options_charge_one_for_every_edit() {
    let o = default_options();
    assert_eq!((o.ins_cost, o.del_cost, o.sub_cost, o.transp_cost), (1, 1, 1, 1));
    assert!(!o.min_cost_when_target_shorter);
    assert!(o.equals.matches('a', 'a'));
    assert!(!o.equals.matches('a', 'b'));
    let w = default_options_with_sub();
    assert_eq!((w.ins_cost, w.del_cost, w.sub_cost, w.transp_cost), (1, 1, 1, 1));
    assert!(!w.min_cost_when_target_shorter);
}

#[test]
fn identical_chars_is_identity() {
    assert!(identical_chars('x', 'x'));
    assert!(!identical_chars('x', 'X'));
    assert!(!identical_chars('e', 'é'));
}

#[test]
fn matrix_types_are_plain_values() {
    let kinds = [MatrixType::Vec, MatrixType::Grid];
    let copy = kinds;
    assert!(matches!(copy[0], MatrixType::Vec));
    assert!(matches!(kinds[1], MatrixType::Grid));
}

#[test]
fn chars_of_gives_code_points_not_bytes() {
    assert_eq!(chars_of(""), Vec::<char>::new());
    assert_eq!(chars_of("abc"), vec!['a', 'b', 'c']);
    assert_eq!(chars_of("añ€😀"), vec!['a', 'ñ', '€', '😀']);
}

#[test]
fn top_row_and_left_column_accumulate_costs() {
    let m = get_matrix::<VecMatrix, IdenticalChars>("abc", "xy", costs(2, 3, 4, 1));
    assert_eq!(m.matrix[0], vec![0, 2, 4]);
    assert_eq!(m.matrix[1][0], 3);
    assert_eq!(m.matrix[2][0], 6);
    assert_eq!(m.matrix[3][0], 9);
}

#[test]
fn empty_sequences_give_the_origin_alone() {
    let m = get_matrix::<VecMatrix, IdenticalChars>("", "", default_options());
    assert_eq!(m.matrix, vec![vec![0]]);
    assert_eq!(m.get_size(), (1, 1));
    assert_eq!(m.get_last_cell(), 0);
}

#[test]
fn recurrence_takes_the_cheapest_step() {
    let m = get_matrix::<VecMatrix, IdenticalChars>("ab", "b", costs(2, 3, 4, 1));
    assert_eq!(m.matrix, vec![vec![0, 2], vec![3, 4], vec![6, 3]]);
    assert_eq!(m.get_last_cell(), 3);
    let script = get_script::<VecMatrix, IdenticalChars>("ab", "b", costs(2, 3, 4, 1));
    assert_eq!(script, vec![Delete, Equal]);
}

#[test]
fn substitution_is_charged_where_code_points_differ() {
    let m = get_matrix::<VecMatrix, IdenticalChars>("a", "b", costs(5, 5, 3, 1));
    assert_eq!(m.matrix, vec![vec![0, 5], vec![5, 3]]);
    let same = get_matrix::<VecMatrix, IdenticalChars>("a", "a", costs(5, 5, 3, 1));
    assert_eq!(same.matrix, vec![vec![0, 5], vec![5, 0]]);
}

#[test]
fn a_swap_is_charged_once_for_the_pair() {
    let m = get_matrix::<VecMatrix, IdenticalChars>("ab", "ba", costs(2, 2, 2, 1));
    assert_eq!(m.matrix, vec![vec![0, 2, 4], vec![2, 2, 2], vec![4, 2, 1]]);
    let script = get_script::<VecMatrix, IdenticalChars>("ab", "ba", costs(2, 2, 2, 1));
    assert_eq!(script, vec![Transpose, Transpose]);
}

#[test]
fn a_swap_is_preferred_wherever_it_lowers_the_cost() {
    let options = costs(1, 1, 1, 5);
    let m = get_matrix::<VecMatrix, IdenticalChars>("ab", "ba", options);
    assert_eq!(m.matrix, vec![vec![0, 1, 2], vec![1, 1, 1], vec![2, 1, 2]]);
    let script = get_script::<VecMatrix, IdenticalChars>("ab", "ba", options);
    assert_eq!(script, vec![Transpose, Transpose]);
}

#[test]
fn a_free_swap_ends_the_walk() {
    let options = costs(1, 1, 1, 0);
    let m = get_matrix::<VecMatrix, IdenticalChars>("ab", "ba", options);
    assert_eq!(m.matrix, vec![vec![0, 1, 2], vec![1, 1, 1], vec![2, 1, 0]]);
    let script = get_script::<VecMatrix, IdenticalChars>("ab", "ba", options);
    assert_eq!(script, vec![]);
}

#[test]
fn swaps_do_not_nest() {
    let m = get_matrix::<VecMatrix, IdenticalChars>("ca", "abc", default_options());
    assert_eq!(m.matrix, vec![vec![0, 1, 2, 3], vec![1, 1, 2, 2], vec![2, 1, 2, 3]]);
    assert_eq!(m.get_last_cell(), 3);
    let script = get_script::<VecMatrix, IdenticalChars>("ca", "abc", default_options());
    assert_eq!(script, vec![Insert, Insert, Equal, Delete]);
}

#[test]
fn a_free_substitution_is_reported_as_substitution() {
    let script = get_script::<VecMatrix, IdenticalChars>("ab", "ab", costs(1, 1, 0, 1));
    assert_eq!(script, vec![Sub, Sub]);
}

#[test]
fn deletion_comes_before_insertion_on_a_tie() {
    let script = get_script::<VecMatrix, IdenticalChars>("ab", "bc", default_options());
    assert_eq!(script, vec![Delete, Equal, Insert]);
}

#[test]
fn code_points_count_not_bytes() {
    let m = get_matrix::<VecMatrix, IdenticalChars>("añb", "anb", default_options());
    assert_eq!(m.get_size(), (4, 4));
    assert_eq!(m.matrix.len(), 4);
    assert_eq!(m.get_last_cell(), 1);
    let script = get_script::<VecMatrix, IdenticalChars>("añb", "anb", default_options());
    assert_eq!(script, vec![Equal, Sub, Equal]);
    let swapped = get_script::<VecMatrix, IdenticalChars>("é😀", "😀é", default_options());
    assert_eq!(swapped, vec![Transpose, Transpose]);
}

#[test]
fn fish_to_ifsh_costs_one() {
    let m = get_matrix::<VecMatrix, IdenticalChars>("fish", "ifsh", default_options());
    assert_eq!(m.get_last_cell(), 1);
    assert_eq!(m.matrix[4][4], 1);
    let script = get_script::<VecMatrix, IdenticalChars>("fish", "ifsh", default_options());
    assert_eq!(script, vec![Transpose, Transpose, Equal, Equal]);
}

#[test]
fn kitten_to_sitting_costs_three() {
    let m = get_matrix::<VecMatrix, IdenticalChars>("kitten", "sitting", default_options());
    assert_eq!(m.get_last_cell(), 3);
    let script = get_script::<VecMatrix, IdenticalChars>("kitten", "sitting", default_options());
    assert_eq!(script, vec![Sub, Equal, Equal, Equal, Sub, Equal, Insert]);
}

#[test]
fn large_costs_that_fit_are_exact() {
    let big = usize::MAX / 8;
    let m = get_matrix::<VecMatrix, IdenticalChars>("ab", "cd", costs(big, big, big, big));
    assert_eq!(m.matrix[2][2], 2 * big);
    assert_eq!(m.matrix[2][0], 2 * big);
    assert_eq!(m.matrix[0][2], 2 * big);
    let script = get_script::<VecMatrix, IdenticalChars>("ab", "cd", costs(big, big, big, big));
    assert_eq!(script, vec![Sub, Sub]);
}
