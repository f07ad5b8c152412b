use life_engine::config::pick_dimension;
use life_engine::loader::{load_pattern, parse_plaintext, LoadError};

fn chars(s: &str) -> Vec<char> {
    s.chars().collect()
}

fn lines(strs: &[&str]) -> Vec<Vec<char>> {
    strs.iter().map(|s| chars(s)).collect()
}

#[test]
fn parses_live_and_dead_marks() {
    let input = lines(&[".O.", "O O", "..O"]);
    let r = parse_plaintext(&input, 5, 5);
    assert_eq!(r, Ok(vec![(0, 1), (1, 0), (1, 2), (2, 2)]));
}

#[test]
fn skips_comments_and_empty_lines() {
    let input = lines(&["! a comment", "", "  ! indented comment", "O.", ".O"]);
    let r = parse_plaintext(&input, 5, 5);
    assert_eq!(r, Ok(vec![(0, 0), (1, 1)]));
}

#[test]
fn rejects_invalid_character() {
    let input = lines(&["..O", ".X."]);
    let r = parse_plaintext(&input, 5, 5);
    assert_eq!(r, Err(LoadError::InvalidChar('X')));
}

#[test]
fn reports_the_first_invalid_character() {
    let input = lines(&[".Zw"]);
    let r = parse_plaintext(&input, 5, 5);
    assert_eq!(r, Err(LoadError::InvalidChar('Z')));
}

#[test]
fn rejects_a_line_wider_than_the_board() {
    let input = lines(&["OOOOOO"]);
    let r = parse_plaintext(&input, 5, 5);
    assert_eq!(r, Err(LoadError::OutOfBounds));
}

#[test]
fn rejects_more_rows_than_the_board() {
    let input = lines(&["O", "O", "O"]);
    let r = parse_plaintext(&input, 2, 2);
    assert_eq!(r, Err(LoadError::OutOfBounds));
}

#[test]
fn comment_lines_do_not_consume_rows_or_width() {
    // The comment is wider than the board but is never measured.
    let input = lines(&["! wider than the board itself", "O"]);
    let r = parse_plaintext(&input, 1, 1);
    assert_eq!(r, Ok(vec![(0, 0)]));
}

#[test]
fn rejects_an_empty_board() {
    let input = lines(&["! only a comment"]);
    let r = parse_plaintext(&input, 0, 5);
    assert_eq!(r, Err(LoadError::EmptyBoard));
}

#[test]
fn all_space_line_counts_as_a_pattern_row() {
    let input = lines(&["   ", "O"]);
    let r = parse_plaintext(&input, 5, 5);
    assert_eq!(r, Ok(vec![(1, 0)]));
}

#[test]
fn load_pattern_accepts_the_cells_extension() {
    let ext = Some(chars("cells"));
    let input = lines(&["O"]);
    let r = load_pattern(&ext, &input, 3, 3);
    assert_eq!(r, Ok(vec![(0, 0)]));
}

#[test]
fn load_pattern_rejects_other_extensions() {
    let input = lines(&["O"]);
    assert_eq!(
        load_pattern(&Some(chars("txt")), &input, 3, 3),
        Err(LoadError::UnknownExtension)
    );
    assert_eq!(load_pattern(&None, &input, 3, 3), Err(LoadError::UnknownExtension));
}

#[test]
fn invalid_character_error_reaches_the_caller_before_any_tick() {
    // Seeding from a rejected pattern yields no coordinate list at all.
    let ext = Some(chars("cells"));
    let input = lines(&["OX"]);
    let r = load_pattern(&ext, &input, 5, 5);
    assert_eq!(r, Err(LoadError::InvalidChar('X')));
}

#[test]
fn pick_dimension_prefers_the_request() {
    assert_eq!(pick_dimension(Some(12), 40), 12);
    assert_eq!(pick_dimension(None, 40), 40);
}
