use note_index::columns::ColumnFormatter;

fn owned(words: &[&str]) -> Vec<String> {
    words.iter().map(|w| w.to_string()).collect()
}

#[test]
fn two_columns_one_space() {
    let out = ColumnFormatter::new(2).with_padding(1).format_words(&owned(&["a", "bb", "ccc", "d"]));
    assert_eq!(out, "a   bb\nccc d \n");
}

#[test]
fn two_columns_from_a_stream() {
    let out = ColumnFormatter::new(2).with_padding(1).format("a bb ccc d");
    assert_eq!(out, "a   bb\nccc d \n");
}

#[test]
fn no_word_gives_no_text() {
    assert_eq!(ColumnFormatter::new(3).format(""), "");
    assert_eq!(ColumnFormatter::new(3).format("  \n\t "), "");
    assert_eq!(ColumnFormatter::new(1).with_padding(0).format_words(&Vec::new()), "");
}

#[test]
fn padding_is_two_unless_told() {
    assert_eq!(ColumnFormatter::new(2).format("a b"), "a  b\n");
    assert_eq!(ColumnFormatter::new(2).with_padding(3).format("a b"), "a   b\n");
    assert_eq!(ColumnFormatter::new(2).with_padding(0).format("a b"), "ab\n");
}

#[test]
fn a_row_that_is_not_full_is_closed() {
    assert_eq!(ColumnFormatter::new(2).with_padding(1).format("a bb ccc"), "a   bb\nccc\n");
    assert_eq!(ColumnFormatter::new(3).with_padding(2).format("aa b c dddd"), "aa    b  c\ndddd\n");
    assert_eq!(ColumnFormatter::new(5).format("x"), "x\n");
    assert_eq!(ColumnFormatter::new(2).with_padding(0).format("x"), "x\n");
    assert_eq!(ColumnFormatter::new(3).with_padding(1).format("a bbb c dd e"), "a  bbb c\ndd e  \n");
}

#[test]
fn one_column_gives_one_word_a_line() {
    assert_eq!(ColumnFormatter::new(1).format("a bbb cc"), "a  \nbbb\ncc \n");
}

#[test]
fn width_counts_bytes_and_fill_counts_characters() {
    assert_eq!(ColumnFormatter::new(1).format("é a"), "é \na \n");
    assert_eq!(ColumnFormatter::new(2).with_padding(1).format("越 b cc d"), "越   b\ncc  d\n");
}

#[test]
fn words_handed_over_are_taken_as_they_are() {
    assert_eq!(ColumnFormatter::new(2).with_padding(0).format_words(&owned(&["x\n"])), "x\n\n");
    assert_eq!(ColumnFormatter::new(2).with_padding(0).format_words(&owned(&[""])), "\n");
    assert_eq!(ColumnFormatter::new(2).with_padding(1).format_words(&owned(&["a b", "c"])), "a b c\n");
}

#[test]
fn every_row_ends_with_a_line_break_and_nothing_follows_the_last() {
    for columns in 1..5usize {
        for count in 1..12usize {
            let words: Vec<String> = (0..count).map(|i| "w".repeat(1 + i % 3)).collect();
            let out = ColumnFormatter::new(columns).with_padding(2).format_words(&words);
            assert!(out.ends_with('\n'));
            assert!(!out.ends_with("\n\n"));
            assert_eq!(out.lines().count(), (count + columns - 1) / columns);
        }
    }
}
