use makepad_kit::textbuffer::TextBuffer;
use makepad_kit::token::{TokenChunk, TokenType};

fn push(
    chunks: &mut Vec<TokenChunk>,
    stack: &mut Vec<usize>,
    kind: TokenType,
    len: usize,
) -> bool {
    let offset = chunks.last().map_or(0, |last| last.offset + last.len);
    TokenChunk::push_with_pairing(chunks, stack, 'n', offset, offset + len, kind)
}

#[test]
fn push_appends_the_chunk() {
    let mut chunks = Vec::new();
    let mut stack = Vec::new();
    assert!(!TokenChunk::push_with_pairing(&mut chunks, &mut stack, 'x', 3, 8, TokenType::Number));
    assert_eq!(
        chunks,
        vec![TokenChunk {
            token_type: TokenType::Number,
            offset: 3,
            pair_token: None,
            len: 5,
            next: 'x'
        }]
    );
    assert!(stack.is_empty());
}

#[test]
fn push_links_pairs_innermost_first() {
    let mut chunks = Vec::new();
    let mut stack = Vec::new();
    assert!(!push(&mut chunks, &mut stack, TokenType::ParenOpen, 1));
    assert!(!push(&mut chunks, &mut stack, TokenType::Identifier, 2));
    assert!(!push(&mut chunks, &mut stack, TokenType::ParenOpen, 1));
    assert_eq!(stack, vec![0, 2]);
    assert!(!push(&mut chunks, &mut stack, TokenType::ParenClose, 1));
    assert_eq!(stack, vec![0]);
    assert_eq!((chunks[2].pair_token, chunks[3].pair_token), (Some(3), Some(2)));
    assert_eq!(chunks[0].pair_token, None);
    assert!(!push(&mut chunks, &mut stack, TokenType::ParenClose, 1));
    assert!(stack.is_empty());
    assert_eq!((chunks[0].pair_token, chunks[4].pair_token), (Some(4), Some(0)));
    assert_eq!(chunks[4].offset, 5);
}

#[test]
fn push_reports_a_closer_without_opener() {
    let mut chunks = Vec::new();
    let mut stack = Vec::new();
    assert!(push(&mut chunks, &mut stack, TokenType::ParenClose, 1));
    assert_eq!(chunks[0].pair_token, None);
    assert!(stack.is_empty());
    assert!(!push(&mut chunks, &mut stack, TokenType::ParenOpen, 1));
    assert!(!push(&mut chunks, &mut stack, TokenType::ParenClose, 1));
    assert!(push(&mut chunks, &mut stack, TokenType::ParenClose, 1));
    assert_eq!(chunks.len(), 4);
}

#[test]
fn push_takes_an_empty_token() {
    let mut chunks = Vec::new();
    let mut stack = Vec::new();
    assert!(!TokenChunk::push_with_pairing(&mut chunks, &mut stack, '\0', 4, 4, TokenType::Eof));
    assert_eq!(chunks[0].len, 0);
}

#[test]
fn scan_passes_over_whitespace_and_line_breaks() {
    let mut chunks = Vec::new();
    let mut stack = Vec::new();
    assert_eq!(TokenChunk::scan_last_token(&chunks), TokenType::Unexpected);
    push(&mut chunks, &mut stack, TokenType::Whitespace, 1);
    assert_eq!(TokenChunk::scan_last_token(&chunks), TokenType::Unexpected);
    push(&mut chunks, &mut stack, TokenType::Keyword, 3);
    assert_eq!(TokenChunk::scan_last_token(&chunks), TokenType::Keyword);
    push(&mut chunks, &mut stack, TokenType::Newline, 1);
    push(&mut chunks, &mut stack, TokenType::Whitespace, 2);
    assert_eq!(TokenChunk::scan_last_token(&chunks), TokenType::Keyword);
    push(&mut chunks, &mut stack, TokenType::CommentChunk, 2);
    assert_eq!(TokenChunk::scan_last_token(&chunks), TokenType::CommentChunk);
}

#[test]
fn only_whitespace_and_line_breaks_are_ignored() {
    assert!(TokenType::Whitespace.should_ignore());
    assert!(TokenType::Newline.should_ignore());
    for kind in [
        TokenType::Eof,
        TokenType::CommentLine,
        TokenType::CommentChunk,
        TokenType::Identifier,
        TokenType::Operator,
        TokenType::Unexpected,
    ] {
        assert!(!kind.should_ignore());
    }
}

#[test]
fn buffer_asks_for_chunks_once_per_edit() {
    let mut buffer = TextBuffer::from_lines(vec![vec!['a']]);
    buffer.flat_text.push('x');
    assert!(buffer.needs_token_chunks());
    assert!(buffer.flat_text.is_empty());
    assert_eq!(buffer.token_chunks_id, buffer.mutation_id);
    buffer.flat_text.push('y');
    assert!(!buffer.needs_token_chunks());
    assert_eq!(buffer.flat_text, vec!['y']);
    buffer.mutation_id += 1;
    buffer.is_loaded = false;
    assert!(!buffer.needs_token_chunks());
    buffer.is_loaded = true;
    assert!(buffer.needs_token_chunks());
    assert_eq!(buffer.lines, vec![vec!['a']]);
}
