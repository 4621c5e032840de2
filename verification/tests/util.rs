use connect_four::util::matrix_to_string;
use connect_four::util::pad_left;
use connect_four::util::usize_to_string;

#[test]
fn pad_left_adds_spaces_up_to_the_length() {
    assert_eq!(pad_left(&"ab".to_string(), 5), "   ab");
    assert_eq!(pad_left(&"abc".to_string(), 3), "abc");
    assert_eq!(pad_left(&"abcd".to_string(), 2), "abcd");
    assert_eq!(pad_left(&"".to_string(), 3), "   ");
}

#[test]
fn decimal_rendering() {
    assert_eq!(usize_to_string(0), "0");
    assert_eq!(usize_to_string(7), "7");
    assert_eq!(usize_to_string(10), "10");
    assert_eq!(usize_to_string(123), "123");
    assert_eq!(usize_to_string(4090), "4090");
}

#[test]
fn matrix_layout_without_headers() {
    let array = vec![
        vec!["a".to_string(), "bb".to_string()],
        vec!["ccc".to_string(), "d".to_string()],
    ];
    let s = matrix_to_string(&array, None, true);
    assert_eq!(s, "--------\n   a bb\n ccc  d\n--------\n   0  1\n");
}

#[test]
fn matrix_layout_with_headers() {
    let array = vec![vec!["x".to_string(), "y".to_string()]];
    let headers = vec!["left".to_string(), "h".to_string()];
    let s = matrix_to_string(&array, Some(&headers), false);
    assert_eq!(s, " left h\n--------\n    x y\n--------\n");
}

#[test]
fn matrix_layout_of_a_board_shaped_grid() {
    let mut array = Vec::new();
    for _ in 0..6 {
        let mut row = Vec::new();
        for _ in 0..7 {
            row.push("_".to_string());
        }
        array.push(row);
    }
    let s = matrix_to_string(&array, None, true);
    let expected = "---------------\n _ _ _ _ _ _ _\n _ _ _ _ _ _ _\n _ _ _ _ _ _ _\n _ _ _ _ _ _ _\n _ _ _ _ _ _ _\n _ _ _ _ _ _ _\n---------------\n 0 1 2 3 4 5 6\n";
    assert_eq!(s, expected);
}
