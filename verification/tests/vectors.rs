use osa_edit::default_options;
use osa_edit::get_matrix;
use osa_edit::get_script;
use osa_edit::vec::VecMatrix;
use osa_edit::EditScript;
use osa_edit::EditType;
use osa_edit::EditType::{Delete, Equal, Insert, Sub, Transpose};
use osa_edit::IdenticalChars;
use osa_edit::Options;

struct TestString {
    source: String,
    target: String,
    options: Options,
    script: EditScript,
}

fn case(source: &str, target: &str, script: Vec<EditType>) -> TestString {
    TestString {
        source: source.to_string(),
        target: target.to_string(),
        options: default_options(),
        script,
    }
}

fn test_data() -> Vec<TestString> {
    vec![
        case("", "a", vec![Insert]),
        case("a", "aa", vec![Equal, Insert]),
        case("a", "aaa", vec![Equal, Insert, Insert]),
        case("", "", vec![]),
        case("a", "b", vec![Sub]),
        case("aaa", "aba", vec![Equal, Sub, Equal]),
        case("aaa", "ab", vec![Equal, Sub, Delete]),
        case("a", "a", vec![Equal]),
        case("ab", "ab", vec![Equal, Equal]),
        case("a", "", vec![Delete]),
        case("aa", "a", vec![Equal, Delete]),
        case("aaa", "a", vec![Equal, Delete, Delete]),
        case("kitten", "sitting", vec![Sub, Equal, Equal, Equal, Sub, Equal, Insert]),
        case("Orange", "Apple", vec![Sub, Sub, Sub, Sub, Delete, Equal]),
        case("ab", "bc", vec![Delete, Equal, Insert]),
        case("abd", "bec", vec![Delete, Equal, Sub, Insert]),
        case("me", "meme", vec![Equal, Equal, Insert, Insert]),
        case("fish", "ifsh", vec![Transpose, Transpose, Equal, Equal]),
        case("fishy", "ifsh", vec![Transpose, Transpose, Equal, Equal, Delete]),
    ]
}

struct TestMatrix {
    matrix: Vec<Vec<usize>>,
    source: String,
    target: String,
    options: Options,
}

fn test_matrix_data() -> Vec<TestMatrix> {
    vec![TestMatrix {
        matrix: vec![
            vec![0, 1, 2, 3, 4],
            vec![1, 1, 1, 2, 3],
            vec![2, 1, 1, 2, 3],
            vec![3, 2, 2, 1, 2],
            vec![4, 3, 3, 2, 1],
        ],
        source: String::from("fish"),
        target: String::from("ifsh"),
        options: default_options(),
    }]
}

#[test]
fn test_edit_script_for_strings() {
    for t in test_data() {
        let script = get_script::<VecMatrix, IdenticalChars>(&t.source, &t.target, t.options);
        assert_eq!(
            t.script.len(),
            script.len(),
            "failed on comparing {} to {} results {:?}, {:?}",
            t.source,
            t.target,
            t.script,
            script,
        );

        for (i, el) in t.script.iter().enumerate() {
            assert_eq!(
                *el, script[i],
                "failed on test {}, t.source, failed at index {}",
                t.source, i
            )
        }
    }
}

#[test]
fn test_matrix() {
    for t in test_matrix_data() {
        let result = get_matrix::<VecMatrix, IdenticalChars>(&t.source, &t.target, t.options);
        assert_eq!(result.matrix.len(), t.matrix.len());
        for (i, row) in result.matrix.iter().enumerate() {
            assert_eq!(row.len(), t.matrix[i].len());
            for (a, b) in row.iter().zip(t.matrix[i].iter()) {
                assert_eq!(a, b, "values don't match in row {}", i)
            }
        }
    }
}
