use split_text_into_lines::{transform, WordTooLongError};

const PARAGRAPH: &str = "Lorem ipsum dolor sit amet consectetur adipiscing elit sed do eiusmod tempor incididunt ut labore et dolore magna aliqua";

fn words_of(text: &str) -> Vec<String> {
    text.split(|c| c == ' ' || c == '\n')
        .filter(|w| !w.is_empty())
        .map(String::from)
        .collect()
}

#[test]
fn every_line_has_the_width() {
    for width in [11usize, 12, 13, 20, 40] {
        let out = transform(PARAGRAPH, width).unwrap();
        for line in out.split('\n') {
            assert_eq!(line.len(), width, "line '{}' at width {}", line, width);
        }
    }
}

#[test]
fn rewrapping_collapsed_output_is_stable() {
    for width in [11usize, 12, 17, 30] {
        let out = transform(PARAGRAPH, width).unwrap();
        let collapsed = words_of(&out).join(" ");
        assert_eq!(transform(&collapsed, width).unwrap(), out);
    }
}

#[test]
fn words_keep_their_order() {
    let out = transform(PARAGRAPH, 12).unwrap();
    assert_eq!(words_of(&out), words_of(PARAGRAPH));
    assert_eq!(words_of(&out).concat(), words_of(PARAGRAPH).concat());
}

#[test]
fn first_long_word_is_reported() {
    let result = transform("ab abcdef abcdefgh", 4);
    assert_eq!(result, Err(WordTooLongError(String::from("abcdef"), 4)));
}

#[test]
fn long_word_after_full_lines_gives_no_output() {
    let result = transform("a b c d e f toolongword", 3);
    assert_eq!(result, Err(WordTooLongError(String::from("toolongword"), 3)));
}

#[test]
fn empty_input_at_any_width() {
    assert_eq!(transform("", 0), Ok(String::new()));
    assert_eq!(transform("", 1), Ok(String::new()));
    assert_eq!(transform("", 1000), Ok(String::new()));
}

#[test]
fn only_spaces_give_empty_output() {
    assert_eq!(transform("     ", 4), Ok(String::new()));
}

#[test]
fn width_zero_rejects_any_word() {
    assert_eq!(transform("a", 0), Err(WordTooLongError(String::from("a"), 0)));
}

#[test]
fn word_of_exact_width_has_no_padding() {
    assert_eq!(transform("abcde", 5), Ok(String::from("abcde")));
}

#[test]
fn single_word_is_padded_on_the_right() {
    assert_eq!(transform("ab", 6), Ok(String::from("ab    ")));
}

#[test]
fn leftover_spaces_go_to_the_leftmost_gaps() {
    // free space 4 over 3 gaps: 2, 1, 1 extra spaces
    assert_eq!(transform("a b c d", 11), Ok(String::from("a   b  c  d")));
}

#[test]
fn last_line_is_justified_too() {
    assert_eq!(transform("aa bb cc", 5), Ok(String::from("aa bb\ncc   ")));
}

#[test]
fn words_that_exactly_fill_a_line_stay_together() {
    assert_eq!(transform("ab cd ef", 5), Ok(String::from("ab cd\nef   ")));
}

#[test]
fn leading_and_trailing_spaces_are_ignored() {
    assert_eq!(transform("  ab  cd  ", 6), Ok(String::from("ab  cd")));
}

#[test]
fn width_counts_bytes() {
    assert_eq!(transform("äö ü", 4), Ok(String::from("äö\nü  ")));
    assert_eq!(transform("ab c", 4), Ok(String::from("ab c")));
}

#[test]
fn multibyte_word_longer_than_width_in_bytes_is_rejected() {
    assert_eq!(transform("ä", 1), Err(WordTooLongError(String::from("ä"), 1)));
}

#[test]
fn multibyte_word_of_exact_byte_width_has_no_padding() {
    assert_eq!(transform("ä", 2), Ok(String::from("ä")));
    assert_eq!(transform("€", 3), Ok(String::from("€")));
    assert_eq!(transform("😀", 4), Ok(String::from("😀")));
}

#[test]
fn same_byte_profile_wraps_alike() {
    let greek = transform("ΒΓΑ  ΒΓΔ  γβα", 11).unwrap();
    let latin = transform("abcdef  ghijkl  mnopqr", 11).unwrap();
    let gaps = |t: &str| t.split('\n').map(|l| l.len()).collect::<Vec<_>>();
    assert_eq!(gaps(&greek), gaps(&latin));
    assert_eq!(latin, "abcdef     \nghijkl     \nmnopqr     ");
    assert_eq!(transform("ä", 1).is_err(), transform("ab", 1).is_err());
}

#[test]
fn line_break_in_input_stays_inside_a_word() {
    assert_eq!(transform("a\nb c", 5), Ok(String::from("a\nb c")));
}
