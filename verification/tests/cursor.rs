use makepad_kit::cursor::TokenizerState;

fn lines_of(text: &str) -> Vec<Vec<char>> {
    text.split('\n').map(|line| line.chars().collect()).collect()
}

#[test]
fn cursor_walks_lines_as_one_stream() {
    let lines = lines_of("ab\n\nc");
    let mut state = TokenizerState::new(&lines);
    assert_eq!((state.prev, state.cur, state.next, state.eof), ('\0', '\0', 'a', false));
    let mut seen = String::new();
    while !state.eof {
        seen.push(state.next);
        state.advance();
    }
    assert_eq!(seen, "ab\n\nc\0");
    assert_eq!(state.next, '\0');
}

#[test]
fn cursor_on_an_empty_line_is_at_the_sentinel() {
    let lines = lines_of("");
    let mut state = TokenizerState::new(&lines);
    assert_eq!((state.next, state.eof), ('\0', false));
    state.advance();
    assert_eq!((state.next, state.eof), ('\0', true));
}

#[test]
fn cursor_stays_at_the_end() {
    let lines = lines_of("a");
    let mut state = TokenizerState::new(&lines);
    state.advance_with_cur();
    assert!(!state.eof);
    assert_eq!((state.cur, state.next), ('a', '\0'));
    state.advance_with_cur();
    assert!(state.eof);
    assert_eq!((state.cur, state.next), ('\0', '\0'));
    state.advance();
    state.advance();
    assert!(state.eof);
    assert_eq!((state.line_counter, state.column), (0, 1));
    state.advance_with_prev();
    assert_eq!((state.prev, state.cur, state.next), ('\0', '\0', '\0'));
}

#[test]
fn cursor_keeps_current_and_previous() {
    let lines = lines_of("abcd");
    let mut state = TokenizerState::new(&lines);
    state.advance_with_cur();
    assert_eq!((state.prev, state.cur, state.next), ('\0', 'a', 'b'));
    state.advance_with_prev();
    assert_eq!((state.prev, state.cur, state.next), ('a', 'b', 'c'));
    state.advance();
    assert_eq!((state.prev, state.cur, state.next), ('a', 'b', 'd'));
    state.advance_with_cur();
    assert_eq!((state.prev, state.cur, state.next), ('a', 'd', '\0'));
    assert!(!state.eof);
}

#[test]
fn nul_in_the_text_is_not_the_end() {
    let lines = lines_of("\0a");
    let mut state = TokenizerState::new(&lines);
    assert_eq!((state.next, state.eof), ('\0', false));
    state.advance();
    assert_eq!((state.next, state.eof), ('a', false));
}

#[test]
fn lookahead_classes() {
    let digits: Vec<char> = "0123456789".chars().collect();
    for c in (0u8..128).map(|b| b as char) {
        let lines = vec![vec![c]];
        let state = TokenizerState::new(&lines);
        assert_eq!(state.next_is_digit(), digits.contains(&c));
        assert_eq!(state.next_is_letter(), c.is_ascii_alphabetic());
        assert_eq!(state.next_is_hex(), c.is_ascii_hexdigit());
    }
}

#[test]
fn keyword_takes_the_word_when_it_stands_there() {
    let lines = lines_of("contract x");
    let mut state = TokenizerState::new(&lines);
    state.advance_with_cur();
    let mut chunk = vec!['c'];
    assert!(state.keyword(&mut chunk, "ontract"));
    assert_eq!(chunk.iter().collect::<String>(), "contract");
    assert_eq!((state.cur, state.next), ('c', ' '));
    assert!(state.keyword(&mut chunk, ""));
    assert_eq!(state.next, ' ');
}

#[test]
fn keyword_takes_nothing_when_it_does_not() {
    let lines = lines_of("contrast");
    let mut state = TokenizerState::new(&lines);
    state.advance_with_cur();
    let mut chunk = vec!['c'];
    assert!(!state.keyword(&mut chunk, "ontract"));
    assert_eq!(chunk, vec!['c']);
    assert_eq!((state.cur, state.next, state.line_counter, state.column), ('c', 'o', 0, 1));
    assert!(state.keyword(&mut chunk, "ontra"));
    assert_eq!(state.next, 's');
}

#[test]
fn keyword_does_not_match_past_the_end() {
    let lines = lines_of("fo");
    let mut state = TokenizerState::new(&lines);
    state.advance_with_cur();
    let mut chunk = Vec::new();
    assert!(!state.keyword(&mut chunk, "or"));
    assert!(!state.keyword(&mut chunk, "o\0\0"));
    assert!(chunk.is_empty());
    assert_eq!((state.next, state.eof), ('o', false));
    assert!(state.keyword(&mut chunk, "o"));
    assert!(!state.eof);
    assert!(state.keyword(&mut chunk, "\0"));
    assert!(state.eof);
    assert!(!state.keyword(&mut chunk, "\0"));
    assert!(state.keyword(&mut chunk, ""));
    assert_eq!(chunk, vec!['o', '\0']);
}

#[test]
fn keyword_goes_over_a_line_break() {
    let lines = lines_of("a\nb");
    let mut state = TokenizerState::new(&lines);
    let mut chunk = Vec::new();
    assert!(state.keyword(&mut chunk, "a\nb"));
    assert_eq!(chunk, vec!['a', '\n', 'b']);
    assert_eq!((state.next, state.eof), ('\0', false));
}

#[test]
fn cursor_knows_the_end_sentinel() {
    let lines = lines_of("a\n\0");
    let mut state = TokenizerState::new(&lines);
    let mut at_end = Vec::new();
    while !state.eof {
        at_end.push(state.next_is_end());
        state.advance();
    }
    assert_eq!(at_end, vec![false, false, false, true]);
    assert!(!state.next_is_end());
}
