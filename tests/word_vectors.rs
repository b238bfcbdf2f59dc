use word_vectors::decimal::parse_component;
use word_vectors::expression::{evaluate, gather};
use word_vectors::load::{load, ParseError, Policy, RowError};
use word_vectors::search::{nearest_neighbor, Metric};
use word_vectors::table::Table;
use word_vectors::vector::{
    add, average, cosine_similarity, euclidean_distance, isqrt, subtract, sum, VectorError, SCALE,
};

fn lines(text: &[&str]) -> Vec<String> {
    text.iter().map(|l| l.to_string()).collect()
}

fn words(ws: &[&str]) -> Vec<String> {
    ws.iter().map(|w| w.to_string()).collect()
}

fn royal_table() -> Table {
    load(&lines(&["king 1 0", "queen 0.9 0.1", "man 0.1 1"]), None, Policy::Strict)
        .unwrap()
        .table
}

fn abc_table() -> Table {
    load(&lines(&["a 1 0", "b 0 1", "c 1 1"]), Some(2), Policy::Strict)
        .unwrap()
        .table
}

#[test]
fn cosine_is_symmetric_and_one_with_itself() {
    let a = vec![1_000_000, -2_500_000, 300_000];
    let b = vec![-400_000, 1_200_000, 5_000_000];
    assert_eq!(cosine_similarity(&a, &b), cosine_similarity(&b, &a));
    assert_eq!(cosine_similarity(&a, &a), SCALE);
    assert_eq!(cosine_similarity(&b, &b), SCALE);
}

#[test]
fn cosine_with_zero_vector_is_zero() {
    let a = vec![1_000_000, 2_000_000];
    let z = vec![0, 0];
    assert_eq!(cosine_similarity(&a, &z), 0);
    assert_eq!(cosine_similarity(&z, &a), 0);
    assert_eq!(cosine_similarity(&z, &z), 0);
}

#[test]
fn cosine_exact_values() {
    let a = vec![1_000_000, 0];
    let c = vec![1_000_000, 1_000_000];
    assert_eq!(cosine_similarity(&a, &c), 707_106);
    let neg = vec![-1_000_000, 0];
    assert_eq!(cosine_similarity(&a, &neg), -SCALE);
    assert_eq!(cosine_similarity(&neg, &c), -707_106);
}

#[test]
fn euclidean_self_zero_symmetric_and_exact() {
    let a = vec![0, 0];
    let b = vec![3_000_000, 4_000_000];
    assert_eq!(euclidean_distance(&a, &a), 0);
    assert_eq!(euclidean_distance(&b, &b), 0);
    assert_eq!(euclidean_distance(&a, &b), 5_000_000);
    assert_eq!(euclidean_distance(&b, &a), 5_000_000);
    let c = vec![1, 1];
    assert_eq!(euclidean_distance(&a, &c), 1);
}

#[test]
fn integer_square_root() {
    assert_eq!(isqrt(0), 0);
    assert_eq!(isqrt(15), 3);
    assert_eq!(isqrt(16), 4);
    assert_eq!(isqrt(u128::MAX), u64::MAX as u128);
}

#[test]
fn average_of_one_and_of_copies() {
    let v = vec![1_500_000, -700_001, 3];
    assert_eq!(average(&vec![v.clone()]), Ok(v.clone()));
    assert_eq!(average(&vec![v.clone(), v.clone()]), Ok(v.clone()));
}

#[test]
fn average_rounds_toward_zero() {
    let a = vec![1, -1];
    let b = vec![0, 0];
    assert_eq!(average(&vec![a, b]), Ok(vec![0, 0]));
    let c = vec![3, -3];
    let d = vec![0, 0];
    assert_eq!(average(&vec![c, d]), Ok(vec![1, -1]));
}

#[test]
fn add_then_subtract_gives_back() {
    let a = vec![1_000_000, -2_000_000, 5];
    let b = vec![300_000, 400_000, -6];
    let s = add(&a, &b).unwrap();
    assert_eq!(s, vec![1_300_000, -1_600_000, -1]);
    assert_eq!(subtract(&s, &b), Ok(a));
}

#[test]
fn vector_errors() {
    let a = vec![1, 2];
    let b = vec![1, 2, 3];
    assert_eq!(add(&a, &b), Err(VectorError::DimensionMismatch));
    assert_eq!(subtract(&a, &b), Err(VectorError::DimensionMismatch));
    assert_eq!(sum(&vec![a.clone(), b.clone()]), Err(VectorError::DimensionMismatch));
    assert_eq!(average(&vec![a.clone(), b]), Err(VectorError::DimensionMismatch));
    assert_eq!(sum(&vec![]), Err(VectorError::EmptyInput));
    assert_eq!(average(&vec![]), Err(VectorError::EmptyInput));
    let big = vec![60_000_000];
    assert_eq!(add(&big, &big), Err(VectorError::OutOfRange));
    assert_eq!(subtract(&big, &vec![-60_000_000]), Err(VectorError::OutOfRange));
    assert_eq!(sum(&vec![big.clone(), big.clone()]), Err(VectorError::OutOfRange));
    assert_eq!(average(&vec![big.clone(), big.clone()]), Ok(big));
}

#[test]
fn sum_of_three() {
    let v = vec![vec![1, 2], vec![10, 20], vec![-100, 0]];
    assert_eq!(sum(&v), Ok(vec![-89, 22]));
}

#[test]
fn decimal_fields() {
    assert_eq!(parse_component("-0.41800"), Some(-418_000));
    assert_eq!(parse_component("0.9"), Some(900_000));
    assert_eq!(parse_component("+2"), Some(2_000_000));
    assert_eq!(parse_component("3."), Some(3_000_000));
    assert_eq!(parse_component("12.3456789"), Some(12_345_678));
    assert_eq!(parse_component("67.108864"), Some(67_108_864));
    assert_eq!(parse_component("67.108865"), None);
    assert_eq!(parse_component("1e-05"), None);
    assert_eq!(parse_component("abc"), None);
    assert_eq!(parse_component(""), None);
    assert_eq!(parse_component("-"), None);
    assert_eq!(parse_component(".5"), Some(500_000));
    assert_eq!(parse_component("-.25"), Some(-250_000));
    assert_eq!(parse_component("."), None);
    assert_eq!(parse_component("-."), None);
    assert_eq!(parse_component("99999999999999999999999"), None);
}

#[test]
fn load_reads_rows_and_skips_blank_lines() {
    let l = load(&lines(&["king  1\t0", "", "   ", "man 0.1 1"]), None, Policy::Strict).unwrap();
    assert_eq!(l.table.dim(), 2);
    assert_eq!(l.table.len(), 2);
    assert_eq!(l.table.word(0), "king");
    assert_eq!(l.table.vector(0), &vec![1_000_000, 0]);
    assert_eq!(l.table.word(1), "man");
    assert_eq!(l.table.vector(1), &vec![100_000, 1_000_000]);
    assert!(l.skipped.is_empty());
}

#[test]
fn load_last_occurrence_wins() {
    let l = load(&lines(&["a 1 0", "b 0 1", "a 2 2"]), None, Policy::Strict).unwrap();
    assert_eq!(l.table.len(), 2);
    assert_eq!(l.table.lookup(&"a".to_string()), Some(0));
    assert_eq!(l.table.vector(0), &vec![2_000_000, 2_000_000]);
}

#[test]
fn wrong_field_count_strict_and_lenient() {
    let text = lines(&["a 1 0", "b 0 1 5", "c 1 1"]);
    let strict = load(&text, Some(2), Policy::Strict);
    assert_eq!(
        strict.err(),
        Some(ParseError { line: 2, kind: RowError::WrongFieldCount })
    );
    let lenient = load(&text, Some(2), Policy::Lenient).unwrap();
    assert_eq!(lenient.table.len(), 2);
    assert_eq!(lenient.table.word(0), "a");
    assert_eq!(lenient.table.vector(0), &vec![1_000_000, 0]);
    assert_eq!(lenient.table.word(1), "c");
    assert_eq!(lenient.table.vector(1), &vec![1_000_000, 1_000_000]);
    assert_eq!(lenient.table.lookup(&"b".to_string()), None);
    assert_eq!(
        lenient.skipped,
        vec![ParseError { line: 2, kind: RowError::WrongFieldCount }]
    );
}

#[test]
fn first_row_sets_dimension() {
    let text = lines(&["a 1 0 0", "b 0 1"]);
    let strict = load(&text, None, Policy::Strict);
    assert_eq!(
        strict.err(),
        Some(ParseError { line: 2, kind: RowError::WrongFieldCount })
    );
    let lenient = load(&text, None, Policy::Lenient).unwrap();
    assert_eq!(lenient.table.dim(), 3);
    assert_eq!(lenient.table.len(), 1);
}

#[test]
fn bad_number_is_a_parse_error() {
    let text = lines(&["a 1 0", "b x 1", "c 1 1"]);
    assert_eq!(
        load(&text, None, Policy::Strict).err(),
        Some(ParseError { line: 2, kind: RowError::BadNumber })
    );
    let lenient = load(&text, None, Policy::Lenient).unwrap();
    assert_eq!(lenient.table.len(), 2);
    assert_eq!(
        lenient.skipped,
        vec![ParseError { line: 2, kind: RowError::BadNumber }]
    );
}

#[test]
fn word_without_components_is_refused() {
    assert_eq!(
        load(&lines(&["lonely"]), None, Policy::Strict).err(),
        Some(ParseError { line: 1, kind: RowError::WrongFieldCount })
    );
}

#[test]
fn empty_file_gives_empty_table() {
    let l = load(&vec![], None, Policy::Strict).unwrap();
    assert_eq!(l.table.len(), 0);
    assert_eq!(l.table.dim(), 0);
}

#[test]
fn royal_expression_and_no_result() {
    let t = royal_table();
    let ev = evaluate(&words(&["king", "-", "man", "+", "queen"]), &t).unwrap();
    assert_eq!(ev.vector, vec![1_800_000, -900_000]);
    assert!(ev.unknown.is_empty());
    let exclude = words(&["king", "man", "queen"]);
    assert!(nearest_neighbor(&ev.vector, &t, &exclude, Metric::Cosine).is_none());
}

#[test]
fn average_then_nearest_by_cosine() {
    let t = abc_table();
    let g = gather(&words(&["a", "b"]), &t);
    assert!(g.unknown.is_empty());
    let avg = average(&g.vectors).unwrap();
    assert_eq!(avg, vec![500_000, 500_000]);
    let n = nearest_neighbor(&avg, &t, &words(&["a", "b"]), Metric::Cosine).unwrap();
    assert_eq!(n.word, "c");
    assert_eq!(n.index, 2);
    assert_eq!(n.score, SCALE);
    let a = t.vector(0).clone();
    let n = nearest_neighbor(&a, &t, &words(&["a"]), Metric::Cosine).unwrap();
    assert_eq!(n.word, "c");
    assert_eq!(n.score, 707_106);
}

#[test]
fn unknown_word_is_skipped_with_warning() {
    let t = royal_table();
    let ev = evaluate(&words(&["king", "+", "zzz"]), &t).unwrap();
    assert_eq!(ev.vector, vec![1_000_000, 0]);
    assert_eq!(ev.unknown, words(&["zzz"]));
    let g = gather(&words(&["zzz", "man"]), &t);
    assert_eq!(g.vectors, vec![vec![100_000, 1_000_000]]);
    assert_eq!(g.unknown, words(&["zzz"]));
}

#[test]
fn expression_signs() {
    let t = royal_table();
    let ev = evaluate(&words(&["-", "king", "queen", "-", "+", "-", "man"]), &t).unwrap();
    assert_eq!(ev.vector, vec![-2_000_000, -1_100_000]);
    let empty = evaluate(&vec![], &t).unwrap();
    assert_eq!(empty.vector, vec![0, 0]);
}

#[test]
fn expression_out_of_range() {
    let t = load(&lines(&["big 60"]), None, Policy::Strict).unwrap().table;
    assert_eq!(
        evaluate(&words(&["big", "big"]), &t).err(),
        Some(VectorError::OutOfRange)
    );
    let ok = evaluate(&words(&["big", "big", "-", "big"]), &t).unwrap();
    assert_eq!(ok.vector, vec![60_000_000]);
}

#[test]
fn nearest_by_euclidean() {
    let t = royal_table();
    let target = vec![920_000, 80_000];
    let n = nearest_neighbor(&target, &t, &vec![], Metric::Euclidean).unwrap();
    assert_eq!(n.word, "queen");
    assert_eq!(n.score, 28_284);
    let n = nearest_neighbor(&target, &t, &words(&["queen"]), Metric::Euclidean).unwrap();
    assert_eq!(n.word, "king");
}

#[test]
fn nearest_tie_goes_to_first_entry() {
    let t = load(&lines(&["x 1 0", "y 2 0"]), None, Policy::Strict).unwrap().table;
    let n = nearest_neighbor(&vec![1_000_000, 0], &t, &vec![], Metric::Cosine).unwrap();
    assert_eq!(n.word, "x");
    assert_eq!(n.score, SCALE);
}

#[test]
fn nearest_on_empty_table() {
    let t = Table::new(2);
    assert!(nearest_neighbor(&vec![1, 1], &t, &vec![], Metric::Euclidean).is_none());
}

#[test]
fn table_insert_and_lookup() {
    let mut t = Table::new(1);
    t.insert("w".to_string(), vec![5]);
    t.insert("v".to_string(), vec![6]);
    t.insert("w".to_string(), vec![7]);
    assert_eq!(t.len(), 2);
    assert_eq!(t.lookup(&"w".to_string()), Some(0));
    assert_eq!(t.vector(0), &vec![7]);
    assert_eq!(t.lookup(&"v".to_string()), Some(1));
    assert_eq!(t.lookup(&"u".to_string()), None);
}

#[test]
fn average_of_two_unit_vectors() {
    let a = vec![1_000_000, 0];
    let b = vec![0, 1_000_000];
    assert_eq!(average(&vec![a, b]), Ok(vec![500_000, 500_000]));
}

#[test]
fn known_words_are_counted() {
    let t = royal_table();
    let ev = evaluate(&words(&["zzz", "-", "yyy"]), &t).unwrap();
    assert_eq!(ev.known, 0);
    assert_eq!(ev.vector, vec![0, 0]);
    let ev = evaluate(&words(&["king", "+", "zzz", "-", "man"]), &t).unwrap();
    assert_eq!(ev.known, 2);
}

#[test]
fn add_then_subtract_in_an_expression() {
    let t = royal_table();
    let ev = evaluate(&words(&["queen", "+", "man", "-", "man"]), &t).unwrap();
    assert_eq!(ev.vector, vec![900_000, 100_000]);
}

#[test]
fn wrong_field_count_after_first_row_sets_dimension() {
    let text = lines(&["a 1 0", "b 0 1 5", "c 1 1"]);
    assert_eq!(
        load(&text, None, Policy::Strict).err(),
        Some(ParseError { line: 2, kind: RowError::WrongFieldCount })
    );
    let lenient = load(&text, None, Policy::Lenient).unwrap();
    let without = load(&lines(&["a 1 0", "c 1 1"]), None, Policy::Lenient).unwrap();
    assert_eq!(lenient.table.len(), without.table.len());
    for k in 0..without.table.len() {
        assert_eq!(lenient.table.word(k), without.table.word(k));
        assert_eq!(lenient.table.vector(k), without.table.vector(k));
    }
}
