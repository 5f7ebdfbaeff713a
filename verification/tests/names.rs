use rsomics_kbins::names::{indicator_column_name, push_decimal};
use rsomics_kbins::onehot_col_names;
use rsomics_kbins::table::numbered_names;

#[test]
fn onehot_names_per_bin() {
    let cols = vec!["a".to_string(), "gene x".to_string()];
    let names = onehot_col_names(&cols, &vec![2, 3]);
    assert_eq!(names, vec!["a_0", "a_1", "gene x_0", "gene x_1", "gene x_2"]);
}

#[test]
fn onehot_names_stop_at_shorter_list() {
    let cols = vec!["a".to_string(), "b".to_string()];
    assert_eq!(onehot_col_names(&cols, &vec![1]), vec!["a_0"]);
    assert_eq!(onehot_col_names(&cols, &vec![0, 2, 4]), vec!["b_0", "b_1"]);
}

#[test]
fn onehot_names_count_matches_width() {
    let cols: Vec<String> = (0..4).map(|i| format!("c{i}")).collect();
    let nb = vec![3usize, 0, 12, 5];
    assert_eq!(onehot_col_names(&cols, &nb).len(), nb.iter().sum::<usize>());
    assert_eq!(onehot_col_names(&cols, &nb)[3 + 10], "c2_10");
}

#[test]
fn decimal_formatting() {
    for k in [0usize, 7, 10, 99, 100, 12345, usize::MAX] {
        let mut s = String::from("x");
        push_decimal(&mut s, k);
        assert_eq!(s, format!("x{k}"));
    }
    assert_eq!(indicator_column_name(&"f".to_string(), 42), "f_42");
}

#[test]
fn numbered_names_start_at_one() {
    assert_eq!(numbered_names(3), vec!["1", "2", "3"]);
    assert!(numbered_names(0).is_empty());
}
