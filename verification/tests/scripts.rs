use osa_edit::default_options;
use osa_edit::get_matrix;
use osa_edit::get_script;
use osa_edit::grid::GridMatrix;
use osa_edit::osa::Matrix;
use osa_edit::vec::VecMatrix;
use osa_edit::EditType;
use osa_edit::EditType::{Delete, Equal, Insert, Sub, Transpose};
use osa_edit::IdenticalChars;
use osa_edit::Options;

const PAIRS: [(&str, &str); 16] = [
    ("", ""),
    ("", "abc"),
    ("abc", ""),
    ("a", "b"),
    ("kitten", "sitting"),
    ("sitting", "kitten"),
    ("Orange", "Apple"),
    ("fish", "ifsh"),
    ("fishy", "ifsh"),
    ("abcdef", "badcfe"),
    ("ca", "abc"),
    ("banana", "ananas"),
    ("naïve café", "naive cafe"),
    ("😀é", "é😀"),
    ("intention", "execution"),
    ("aaaa", "aa"),
];

fn costs(ins: usize, del: usize, sub: usize, transp: usize) -> Options {
    Options {
        ins_cost: ins,
        del_cost: del,
        sub_cost: sub,
        transp_cost: transp,
        equals: IdenticalChars,
        min_cost_when_target_shorter: false,
    }
}

/// Applies a script to the source: a match copies, a deletion drops, two
/// swap entries copy two code points the other way round, and a
/// substitution and an insertion write what the target has at that place.
fn apply(script: &[EditType], source: &str, target: &str) -> Option<String> {
    let s: Vec<char> = source.chars().collect();
    let t: Vec<char> = target.chars().collect();
    let mut out: Vec<char> = Vec::new();
    let mut i = 0;
    let mut k = 0;
    while k < script.len() {
        match script[k] {
            Equal => {
                out.push(*s.get(i)?);
                i += 1;
            }
            Delete => {
                s.get(i)?;
                i += 1;
            }
            Sub => {
                s.get(i)?;
                out.push(*t.get(out.len())?);
                i += 1;
            }
            Insert => {
                out.push(*t.get(out.len())?);
            }
            Transpose => {
                if script.get(k + 1) != Some(&Transpose) {
                    return None;
                }
                let first = *s.get(i)?;
                let second = *s.get(i + 1)?;
                out.push(second);
                out.push(first);
                i += 2;
                k += 1;
            }
        }
        k += 1;
    }
    if i == s.len() {
        Some(out.into_iter().collect())
    } else {
        None
    }
}

fn cost_of(script: &[EditType], o: &Options) -> usize {
    let mut total = 0;
    let mut k = 0;
    while k < script.len() {
        total += match script[k] {
            Insert => o.ins_cost,
            Delete => o.del_cost,
            Sub => o.sub_cost,
            Equal => 0,
            Transpose => {
                k += 1;
                o.transp_cost
            }
        };
        k += 1;
    }
    total
}

#[test]
fn the_script_turns_the_source_into_the_target() {
    for (source, target) in PAIRS {
        let script = get_script::<VecMatrix, IdenticalChars>(source, target, default_options());
        assert_eq!(apply(&script, source, target), Some(target.to_string()), "{} to {}", source, target);
        let script = get_script::<GridMatrix, IdenticalChars>(source, target, costs(2, 3, 4, 1));
        assert_eq!(apply(&script, source, target), Some(target.to_string()), "{} to {}", source, target);
    }
}

#[test]
fn the_script_costs_what_the_terminal_cell_holds() {
    for (source, target) in PAIRS {
        for options in [default_options(), costs(2, 3, 4, 1), costs(3, 1, 1, 1)] {
            let script = get_script::<VecMatrix, IdenticalChars>(source, target, options);
            let matrix = get_matrix::<VecMatrix, IdenticalChars>(source, target, options);
            assert_eq!(cost_of(&script, &options), matrix.get_last_cell(), "{} to {}", source, target);
        }
    }
}

#[test]
fn a_sequence_turns_into_itself_by_matches_alone() {
    for source in ["", "a", "aa", "abba", "kitten", "naïve café", "😀😀"] {
        let script = get_script::<VecMatrix, IdenticalChars>(source, source, default_options());
        assert_eq!(script.len(), source.chars().count());
        assert!(script.iter().all(|op| *op == Equal));
        let matrix = get_matrix::<VecMatrix, IdenticalChars>(source, source, default_options());
        assert_eq!(matrix.get_last_cell(), 0);
    }
}

#[test]
fn from_the_empty_sequence_everything_is_inserted() {
    for target in ["", "a", "abc", "sitting", "é😀"] {
        for options in [default_options(), costs(2, 3, 4, 1), costs(0, 0, 0, 0)] {
            let script = get_script::<VecMatrix, IdenticalChars>("", target, options);
            assert_eq!(script.len(), target.chars().count());
            assert!(script.iter().all(|op| *op == Insert));
        }
    }
}

#[test]
fn to_the_empty_sequence_everything_is_deleted() {
    for source in ["", "a", "abc", "kitten", "é😀"] {
        for options in [default_options(), costs(2, 3, 4, 1), costs(0, 0, 0, 0)] {
            let script = get_script::<VecMatrix, IdenticalChars>(source, "", options);
            assert_eq!(script.len(), source.chars().count());
            assert!(script.iter().all(|op| *op == Delete));
        }
    }
}

#[test]
fn the_cost_is_the_same_in_both_directions() {
    for (source, target) in PAIRS {
        for options in [default_options(), costs(2, 2, 5, 1), costs(3, 3, 1, 7)] {
            let there = get_matrix::<VecMatrix, IdenticalChars>(source, target, options);
            let back = get_matrix::<VecMatrix, IdenticalChars>(target, source, options);
            assert_eq!(there.get_last_cell(), back.get_last_cell(), "{} and {}", source, target);
        }
    }
    let there = get_matrix::<VecMatrix, IdenticalChars>("kitten", "sitting", default_options());
    assert_eq!(there.get_last_cell(), 3);
}

#[test]
fn the_cost_depends_on_the_direction_where_the_prices_differ() {
    let options = costs(1, 4, 9, 1);
    let there = get_matrix::<VecMatrix, IdenticalChars>("ab", "a", options);
    let back = get_matrix::<VecMatrix, IdenticalChars>("a", "ab", options);
    assert_eq!(there.get_last_cell(), 4);
    assert_eq!(back.get_last_cell(), 1);
}

#[test]
fn swap_entries_come_in_pairs() {
    for (source, target) in PAIRS {
        let script = get_script::<VecMatrix, IdenticalChars>(source, target, default_options());
        let mut k = 0;
        while k < script.len() {
            if script[k] == Transpose {
                assert_eq!(script.get(k + 1), Some(&Transpose), "{} to {}", source, target);
                k += 1;
            }
            k += 1;
        }
    }
    assert_eq!(
        get_script::<VecMatrix, IdenticalChars>("abcdef", "badcfe", default_options()),
        vec![Transpose, Transpose, Transpose, Transpose, Transpose, Transpose]
    );
}

#[test]
fn entries_compare_and_print() {
    assert_eq!(Sub, Sub);
    assert_ne!(Sub, Equal);
    assert_eq!(format!("{:?}", vec![Insert, Delete, Sub, Equal, Transpose]), "[Insert, Delete, Sub, Equal, Transpose]");
}
