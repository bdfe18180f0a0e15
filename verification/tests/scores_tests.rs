use tetris::scores::{line_to_slice, load_high_scores, save_highscore_and_lines, slice_to_string};

#[test]
fn slice_to_string_joins_with_spaces() {
    assert_eq!(slice_to_string(&[1, 22, 333]), "1 22 333");
}

#[test]
fn slice_to_string_edges() {
    assert_eq!(slice_to_string(&[]), "");
    assert_eq!(slice_to_string(&[0]), "0");
    assert_eq!(slice_to_string(&[4294967295, 10]), "4294967295 10");
}

#[test]
fn line_to_slice_reads_numbers() {
    assert_eq!(line_to_slice("1 22 333"), vec![1, 22, 333]);
    assert_eq!(line_to_slice("007"), vec![7]);
}

#[test]
fn line_to_slice_skips_what_is_not_a_number() {
    assert_eq!(line_to_slice("1  2"), vec![1, 2]);
    assert_eq!(line_to_slice("+5 -3 x 7"), vec![5, 7]);
    assert_eq!(line_to_slice("4294967296 1"), vec![1]);
    assert_eq!(line_to_slice("4294967295"), vec![4294967295]);
    assert_eq!(line_to_slice(""), Vec::<u32>::new());
    assert_eq!(line_to_slice("12a"), Vec::<u32>::new());
    assert_eq!(line_to_slice("+"), Vec::<u32>::new());
    assert_eq!(line_to_slice("++1"), Vec::<u32>::new());
    assert_eq!(line_to_slice("1\n2"), Vec::<u32>::new());
    assert_eq!(line_to_slice(" 8 "), vec![8]);
}

#[test]
fn line_round_trip() {
    for v in [vec![], vec![0], vec![5, 0, 4294967295, 12], vec![100, 200, 300]] {
        assert_eq!(line_to_slice(&slice_to_string(&v)), v);
    }
}

#[test]
fn load_high_scores_two_lines() {
    assert_eq!(load_high_scores("10 20\n3 4"), Some((vec![10, 20], vec![3, 4])));
}

#[test]
fn load_high_scores_without_line_break() {
    assert_eq!(load_high_scores("10 20"), None);
    assert_eq!(load_high_scores(""), None);
}

#[test]
fn load_high_scores_keeps_later_line_breaks_in_second_part() {
    assert_eq!(load_high_scores("1\n2\n3"), Some((vec![1], vec![])));
    assert_eq!(load_high_scores("\n"), Some((vec![], vec![])));
    assert_eq!(load_high_scores("5 6\n7\n"), Some((vec![5, 6], vec![])));
}

#[test]
fn high_scores_round_trip() {
    let a = vec![900, 40, 7];
    let b = vec![12, 0];
    let content = format!("{}\n{}", slice_to_string(&a), slice_to_string(&b));
    assert_eq!(load_high_scores(&content), Some((a, b)));
}

#[test]
fn saving_is_switched_off() {
    assert!(!save_highscore_and_lines(&[1, 2], &[3]));
}
