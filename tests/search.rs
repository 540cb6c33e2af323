use localpane::search::{
    find_literal, haystack_idx_to_coord, search, Cell, Coord, Line, Pattern, Screen, SearchResult,
};

fn line(row: isize, text: &str, wrapped: bool) -> Line {
    let n = text.chars().count();
    let cells = text
        .chars()
        .enumerate()
        .map(|(i, c)| Cell {
            grapheme_idx: i,
            text: c.to_string(),
            wrapped: wrapped && i + 1 == n,
        })
        .collect();
    Line { stable_row: row, cells }
}

fn result(start_x: usize, start_y: isize, end_x: usize, end_y: isize) -> SearchResult {
    SearchResult { start_x, start_y, end_x, end_y }
}

#[test]
fn case_insensitive_match_spans_upper_case_text() {
    let screen = Screen { lines: vec![line(0, "xxABCyy", false)] };
    let r = search(&screen, &Pattern::CaseInSensitiveString("abc".to_string()));
    assert_eq!(r, vec![result(2, 0, 5, 0)]);
}

#[test]
fn case_insensitive_pattern_is_lowered_too() {
    let screen = Screen { lines: vec![line(0, "xxabcyy", false)] };
    let r = search(&screen, &Pattern::CaseInSensitiveString("ABC".to_string()));
    assert_eq!(r, vec![result(2, 0, 5, 0)]);
}

#[test]
fn case_sensitive_does_not_fold() {
    let screen = Screen { lines: vec![line(0, "xxABCyy", false)] };
    let r = search(&screen, &Pattern::CaseSensitiveString("abc".to_string()));
    assert!(r.is_empty());
}

#[test]
fn wrapped_rows_are_searched_as_one() {
    let screen = Screen { lines: vec![line(0, "hel", true), line(1, "lo", false)] };
    let r = search(&screen, &Pattern::CaseSensitiveString("hello".to_string()));
    assert_eq!(r, vec![result(0, 0, 1, 1)]);
}

#[test]
fn literal_does_not_cross_a_paragraph() {
    let screen = Screen { lines: vec![line(0, "ab", false), line(1, "cd", false)] };
    let r = search(&screen, &Pattern::CaseSensitiveString("bc".to_string()));
    assert!(r.is_empty());
}

#[test]
fn literal_found_where_placed() {
    let screen = Screen {
        lines: vec![line(10, "some text", false), line(11, "a needle here", false)],
    };
    let r = search(&screen, &Pattern::CaseSensitiveString("needle".to_string()));
    assert_eq!(r, vec![result(2, 11, 8, 11)]);
}

#[test]
fn matches_come_in_scan_order() {
    let screen = Screen {
        lines: vec![line(0, "ab ab", false), line(1, "xx", false), line(2, "ab", false)],
    };
    let r = search(&screen, &Pattern::CaseSensitiveString("ab".to_string()));
    assert_eq!(r, vec![result(0, 0, 2, 0), result(3, 0, 4, 0), result(0, 2, 1, 2)]);
}

#[test]
fn invalid_regex_finds_nothing() {
    let screen = Screen { lines: vec![line(0, "a(b", false)] };
    let r = search(&screen, &Pattern::Regex("(".to_string()));
    assert!(r.is_empty());
}

#[test]
fn regex_matches_within_a_line() {
    let screen = Screen { lines: vec![line(0, "abxc", false)] };
    let r = search(&screen, &Pattern::Regex("b.c".to_string()));
    assert_eq!(r, vec![result(1, 0, 3, 0)]);
}

#[test]
fn regex_may_cross_a_paragraph() {
    let screen = Screen { lines: vec![line(0, "ab", false), line(1, "cd", false)] };
    let r = search(&screen, &Pattern::Regex("b\nc".to_string()));
    assert_eq!(r, vec![result(1, 0, 1, 1)]);
}

#[test]
fn multi_byte_cells_resolve_to_their_grapheme() {
    let screen = Screen { lines: vec![line(0, "éx", false)] };
    let r = search(&screen, &Pattern::CaseSensitiveString("x".to_string()));
    assert_eq!(r, vec![result(1, 0, 1, 0)]);
}

#[test]
fn empty_screen_finds_nothing() {
    let screen = Screen { lines: vec![] };
    assert!(search(&screen, &Pattern::CaseSensitiveString("a".to_string())).is_empty());
    assert!(search(&screen, &Pattern::Regex("a*".to_string())).is_empty());
}

#[test]
fn empty_literal_matches_at_each_boundary() {
    let screen = Screen { lines: vec![line(0, "ab", false)] };
    let r = search(&screen, &Pattern::CaseSensitiveString(String::new()));
    assert_eq!(r, vec![result(0, 0, 0, 0), result(1, 0, 1, 0), result(1, 0, 1, 0)]);
}

#[test]
fn literal_matches_do_not_overlap() {
    let r = find_literal(&b"aaaa".to_vec(), &b"aa".to_vec());
    assert_eq!(r, vec![(0, 2), (2, 4)]);
    let r = find_literal(&b"aaa".to_vec(), &b"aa".to_vec());
    assert_eq!(r, vec![(0, 2)]);
}

fn coords() -> Vec<Coord> {
    vec![
        Coord { byte_idx: 0, grapheme_idx: 0, stable_row: 5 },
        Coord { byte_idx: 3, grapheme_idx: 1, stable_row: 5 },
        Coord { byte_idx: 6, grapheme_idx: 2, stable_row: 6 },
    ]
}

#[test]
fn offset_between_entries_resolves_to_preceding() {
    assert_eq!(haystack_idx_to_coord(4, &coords()), Some((1, 5)));
    assert_eq!(haystack_idx_to_coord(1, &coords()), Some((0, 5)));
}

#[test]
fn offset_on_an_entry_resolves_to_it() {
    assert_eq!(haystack_idx_to_coord(3, &coords()), Some((1, 5)));
    assert_eq!(haystack_idx_to_coord(0, &coords()), Some((0, 5)));
}

#[test]
fn offset_at_or_beyond_last_resolves_to_last() {
    assert_eq!(haystack_idx_to_coord(6, &coords()), Some((2, 6)));
    assert_eq!(haystack_idx_to_coord(100, &coords()), Some((2, 6)));
}

#[test]
fn empty_table_resolves_nothing() {
    assert_eq!(haystack_idx_to_coord(0, &vec![]), None);
}

#[test]
fn empty_regex_matches_stay_on_character_boundaries() {
    let screen = Screen { lines: vec![line(0, "é", false)] };
    let r = search(&screen, &Pattern::Regex("x*".to_string()));
    assert_eq!(r, vec![result(0, 0, 0, 0), result(0, 0, 0, 0), result(0, 0, 0, 0)]);
}

#[test]
fn regex_that_could_match_invalid_text_is_refused() {
    let screen = Screen { lines: vec![line(0, "abc", false)] };
    let r = search(&screen, &Pattern::Regex("(?-u:.)".to_string()));
    assert!(r.is_empty());
}
