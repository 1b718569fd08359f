use cipher_engine::text::{
    find_char, generate_keyword_string, remove_charset, remove_punctuation,
    remove_repeating_letters, remove_whitespace, transpose,
};

#[test]
fn test_remove_repeating() {
    let test_string = String::from("dammed to be here");
    assert_eq!("dame to b hr", remove_repeating_letters(test_string))
}

#[test]
fn test_remove_charset() {
    let test_string = String::from("abcdef");
    assert_eq!(
        String::from("abcd").trim(),
        remove_charset(Vec::from(['e', 'f']), test_string).trim()
    )
}

#[test]
fn test_finder() {
    let grid = Vec::from([Vec::from(['a', 'b']), Vec::from(['c', 'd'])]);
    assert_eq!(Some((0, 1)), find_char(&grid, 'c'))
}

#[test]
fn finder_returns_first_cell_in_row_order() {
    let grid = vec![vec!['x', 'q', 'z'], vec!['q', 'y', 'q']];
    assert_eq!(Some((1, 0)), find_char(&grid, 'q'));
    assert_eq!(Some((1, 1)), find_char(&grid, 'y'));
    assert_eq!(None, find_char(&grid, 'w'));
    assert_eq!(None, find_char(&Vec::new(), 'w'));
}

#[test]
fn remove_whitespace_changes_argument_and_returns_copy() {
    let mut s = String::from(" a\tb\nc \u{a0}d\u{2003}e\u{3000}f\u{85}g ");
    let r = remove_whitespace(&mut s);
    assert_eq!("abcdefg", r);
    assert_eq!("abcdefg", s);
    let mut empty = String::new();
    assert_eq!("", remove_whitespace(&mut empty));
}

#[test]
fn remove_whitespace_keeps_what_is_no_whitespace() {
    let mut s = String::from("a\u{200b}b\u{feff}c_d");
    assert_eq!("a\u{200b}b\u{feff}c_d", remove_whitespace(&mut s));
}

#[test]
fn remove_punctuation_deletes_the_narrow_set_only() {
    assert_eq!("HELLO WORLD!?", remove_punctuation("  <<Hello>>, 'world'.;:!? "));
    assert_eq!("AB", remove_punctuation("\u{ab}a<b>\u{bb}"));
    assert_eq!("A-B(C)", remove_punctuation("a-b(c)"));
    assert_eq!("", remove_punctuation(" .,;: "));
}

#[test]
fn remove_punctuation_upper_cases_ascii_only() {
    assert_eq!("STRA\u{df}E \u{e9}T\u{e9}", remove_punctuation("stra\u{df}e \u{e9}t\u{e9}"));
}

#[test]
fn remove_punctuation_would_fail_if_text_came_back_unchanged() {
    assert_eq!("ABC", remove_punctuation("A.B,C"));
}

#[test]
fn keyword_stream_repeats_and_truncates() {
    let mut k = String::from("LEMON");
    assert_eq!("LEMONLEMONLE", generate_keyword_string(&mut k, 12));
    assert_eq!("LEMON", k);
    assert_eq!("LEM", generate_keyword_string(&mut k, 3));
    assert_eq!("LEMON", generate_keyword_string(&mut k, 5));
    assert_eq!("", generate_keyword_string(&mut k, 0));
}

#[test]
fn keyword_stream_of_one_character() {
    let mut k = String::from("Q");
    assert_eq!("QQQQ", generate_keyword_string(&mut k, 4));
}

#[test]
fn repeating_letters_keep_every_whitespace() {
    assert_eq!("a b  c", remove_repeating_letters(String::from("a ab  bca")));
    assert_eq!("aA", remove_repeating_letters(String::from("aAaA")));
}

#[test]
fn charset_removal_removes_every_occurrence() {
    assert_eq!("bnn", remove_charset(vec!['a'], String::from("banana")));
    assert_eq!("banana", remove_charset(Vec::new(), String::from("banana")));
}

#[test]
fn transpose_swaps_rows_and_columns() {
    let m = vec![vec![1, 2, 3], vec![4, 5, 6]];
    assert_eq!(vec![vec![1, 4], vec![2, 5], vec![3, 6]], transpose(m));
    let single = vec![vec!['a']];
    assert_eq!(vec![vec!['a']], transpose(single));
}

#[test]
fn transpose_twice_gives_the_matrix_back() {
    let m = vec![vec!['a', 'b'], vec!['c', 'd'], vec!['e', 'f']];
    assert_eq!(m.clone(), transpose(transpose(m)));
}
