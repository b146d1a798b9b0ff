use makepad_kit::soltokenizer::SOLTokenizer;
use makepad_kit::textbuffer::TextBuffer;
use makepad_kit::token::{TokenChunk, TokenType};

fn lines_of(text: &str) -> Vec<Vec<char>> {
    text.split('\n').map(|line| line.chars().collect()).collect()
}

fn tokenize(text: &str) -> TextBuffer {
    let mut buffer = TextBuffer::from_lines(lines_of(text));
    SOLTokenizer::update_token_chunks(&mut buffer);
    buffer
}

fn text_of(buffer: &TextBuffer, chunk: &TokenChunk) -> String {
    buffer.flat_text[chunk.offset..chunk.offset + chunk.len].iter().collect()
}

fn tokens(text: &str) -> Vec<(TokenType, String)> {
    let buffer = tokenize(text);
    buffer.token_chunks.iter().map(|chunk| (chunk.token_type, text_of(&buffer, chunk))).collect()
}

fn expect(text: &str, wanted: &[(TokenType, &str)]) {
    let found = tokens(text);
    let wanted: Vec<(TokenType, String)> =
        wanted.iter().map(|(kind, word)| (*kind, word.to_string())).collect();
    assert_eq!(found, wanted, "tokens of {:?}", text);
}

fn first_kind(text: &str) -> (TokenType, String) {
    tokens(text).remove(0)
}

const SAMPLES: [&str; 12] = [
    "",
    "a",
    "intx = 1",
    "(a,(b,c))",
    ")",
    "contract A {\n    function f() public {\n        x += 1;\n    }\n}",
    "// only a comment",
    "/* open",
    "\"open string",
    "a /* b */ c // d\n/e/",
    "\n\n",
    "x = /a\\/b/gi + 0x_ff . 1.5",
];

#[test]
fn keyword_needs_whole_word() {
    expect(
        "intx = 1",
        &[
            (TokenType::Identifier, "intx"),
            (TokenType::Whitespace, " "),
            (TokenType::Operator, "="),
            (TokenType::Whitespace, " "),
            (TokenType::Number, "1"),
            (TokenType::Whitespace, "\0"), (TokenType::Eof, ""),
        ],
    );
}

#[test]
fn keyword_followed_by_more_letters_is_a_name() {
    assert_eq!(first_kind("returned"), (TokenType::Identifier, "returned".to_string()));
    assert_eq!(first_kind("iffy"), (TokenType::Identifier, "iffy".to_string()));
    assert_eq!(first_kind("for_"), (TokenType::Identifier, "for_".to_string()));
    assert_eq!(first_kind("while2("), (TokenType::Call, "while2".to_string()));
    assert_eq!(first_kind("bytes32x"), (TokenType::Identifier, "bytes32x".to_string()));
    assert_eq!(first_kind("exmit"), (TokenType::Identifier, "exmit".to_string()));
    assert_eq!(first_kind("bytes99lock"), (TokenType::Identifier, "bytes99lock".to_string()));
}

#[test]
fn slash_after_identifier_divides() {
    expect(
        "a / b",
        &[
            (TokenType::Identifier, "a"),
            (TokenType::Whitespace, " "),
            (TokenType::Operator, "/"),
            (TokenType::Whitespace, " "),
            (TokenType::Identifier, "b"),
            (TokenType::Whitespace, "\0"), (TokenType::Eof, ""),
        ],
    );
    expect(
        "a /= b",
        &[
            (TokenType::Identifier, "a"),
            (TokenType::Whitespace, " "),
            (TokenType::Operator, "/="),
            (TokenType::Whitespace, " "),
            (TokenType::Identifier, "b"),
            (TokenType::Whitespace, "\0"), (TokenType::Eof, ""),
        ],
    );
}

#[test]
fn slash_after_operator_begins_regex() {
    expect(
        "x = /ab/",
        &[
            (TokenType::Identifier, "x"),
            (TokenType::Whitespace, " "),
            (TokenType::Operator, "="),
            (TokenType::Whitespace, " "),
            (TokenType::Regex, "/ab/"),
            (TokenType::Whitespace, "\0"), (TokenType::Eof, ""),
        ],
    );
}

#[test]
fn slash_after_each_regex_context() {
    for before in ["(", "new", "+", ",", ":", "while"] {
        let text = format!("{} /ab/", before);
        let found = tokens(&text);
        assert_eq!(found[2], (TokenType::Regex, "/ab/".to_string()), "after {:?}", before);
    }
}

#[test]
fn slash_after_flow_word_divides() {
    expect(
        "return /ab/",
        &[
            (TokenType::Flow, "return"),
            (TokenType::Whitespace, " "),
            (TokenType::Operator, "/"),
            (TokenType::Identifier, "ab"),
            (TokenType::Operator, "/"),
            (TokenType::Whitespace, "\0"), (TokenType::Eof, ""),
        ],
    );
}

#[test]
fn regex_takes_flags_and_escaped_slashes() {
    assert_eq!(tokens("= /a\\/b/gi x")[2], (TokenType::Regex, "/a\\/b/gi".to_string()));
    assert_eq!(tokens("= /a/gz")[2], (TokenType::Regex, "/a/g".to_string()));
    assert_eq!(tokens("= /a\\\\/b")[2], (TokenType::Regex, "/a\\\\/".to_string()));
}

#[test]
fn regex_without_end_stops_at_the_line_break() {
    expect(
        "= /ab\nc",
        &[
            (TokenType::Operator, "="),
            (TokenType::Whitespace, " "),
            (TokenType::Regex, "/ab"),
            (TokenType::Newline, "\n"),
            (TokenType::Identifier, "c"),
            (TokenType::Whitespace, "\0"), (TokenType::Eof, ""),
        ],
    );
}

#[test]
fn eof_comes_once_and_last() {
    for text in SAMPLES {
        let buffer = tokenize(text);
        let count = buffer.token_chunks.len();
        assert!(count > 0);
        for (index, chunk) in buffer.token_chunks.iter().enumerate() {
            assert_eq!(chunk.token_type == TokenType::Eof, index == count - 1, "in {:?}", text);
        }
    }
}

#[test]
fn end_sentinel_is_a_token_of_its_own() {
    for text in SAMPLES {
        let buffer = tokenize(text);
        let count = buffer.token_chunks.len();
        assert!(count >= 2, "in {:?}", text);
        let sentinel = &buffer.token_chunks[count - 2];
        assert_eq!(sentinel.token_type, TokenType::Whitespace);
        assert_eq!((sentinel.offset, sentinel.len), (buffer.flat_text.len() - 1, 1));
        assert_eq!(buffer.flat_text[sentinel.offset], '\0');
    }
}

#[test]
fn chunks_are_contiguous() {
    for text in SAMPLES {
        let buffer = tokenize(text);
        let mut offset = 0;
        for chunk in buffer.token_chunks.iter() {
            assert_eq!(chunk.offset, offset, "in {:?}", text);
            if chunk.token_type != TokenType::Eof {
                assert!(chunk.len > 0, "in {:?}", text);
            }
            offset += chunk.len;
        }
        assert_eq!(offset, buffer.flat_text.len());
    }
}

#[test]
fn flat_text_is_the_joined_lines() {
    for text in SAMPLES {
        let buffer = tokenize(text);
        let flat: String = buffer.flat_text.iter().collect();
        assert_eq!(flat, format!("{}\0", text));
    }
    let mut buffer = TextBuffer::from_lines(vec![vec!['a', 'b'], vec![], vec!['c']]);
    SOLTokenizer::update_token_chunks(&mut buffer);
    assert_eq!(buffer.flat_text, vec!['a', 'b', '\n', '\n', 'c', '\0']);
}

#[test]
fn balanced_delimiters_pair_up() {
    let buffer = tokenize("(a,(b,c))");
    assert!(!buffer.was_invalid_pair);
    let pairs: Vec<Option<usize>> = buffer.token_chunks.iter().map(|c| c.pair_token).collect();
    assert_eq!(
        pairs,
        vec![Some(8), None, None, Some(7), None, None, None, Some(3), Some(0), None, None]
    );
    let buffer = tokenize("f(x[1], {y})");
    assert!(!buffer.was_invalid_pair);
    for (index, chunk) in buffer.token_chunks.iter().enumerate() {
        match chunk.token_type {
            TokenType::ParenOpen => {
                let close = chunk.pair_token.unwrap();
                assert!(close > index);
                assert_eq!(buffer.token_chunks[close].token_type, TokenType::ParenClose);
                assert_eq!(buffer.token_chunks[close].pair_token, Some(index));
            }
            TokenType::ParenClose => assert!(chunk.pair_token.unwrap() < index),
            _ => assert_eq!(chunk.pair_token, None),
        }
    }
}

#[test]
fn unmatched_closer_sets_the_flag() {
    let buffer = tokenize(")");
    assert!(buffer.was_invalid_pair);
    assert_eq!(buffer.token_chunks[0].pair_token, None);
    assert!(tokenize("(a))").was_invalid_pair);
    assert!(tokenize(")(").was_invalid_pair);
    assert!(tokenize("a ] b").was_invalid_pair);
}

#[test]
fn unclosed_opener_sets_the_flag() {
    let buffer = tokenize("(a");
    assert!(buffer.was_invalid_pair);
    assert_eq!(buffer.token_chunks[0].pair_token, None);
    assert!(tokenize("{(}").was_invalid_pair);
}

#[test]
fn delimiters_in_strings_and_comments_do_not_count() {
    assert!(!tokenize("\"(\" // )").was_invalid_pair);
    assert!(!tokenize("/* ( */ a").was_invalid_pair);
}

#[test]
fn flag_is_set_anew_for_each_revision() {
    let mut buffer = tokenize(")");
    assert!(buffer.was_invalid_pair);
    buffer.lines = lines_of("()");
    buffer.mutation_id += 1;
    SOLTokenizer::update_token_chunks(&mut buffer);
    assert!(!buffer.was_invalid_pair);
    assert_eq!(buffer.token_chunks.len(), 4);
}

#[test]
fn document_that_is_up_to_date_stays() {
    let mut buffer = tokenize("a b");
    let chunks = buffer.token_chunks.clone();
    buffer.lines = lines_of("c");
    SOLTokenizer::update_token_chunks(&mut buffer);
    assert_eq!(buffer.token_chunks, chunks);
    assert_eq!(buffer.flat_text, vec!['a', ' ', 'b', '\0']);
    let mut unloaded = TextBuffer::from_lines(lines_of("a"));
    unloaded.is_loaded = false;
    SOLTokenizer::update_token_chunks(&mut unloaded);
    assert!(unloaded.token_chunks.is_empty());
}

#[test]
fn document_without_lines_gets_no_chunks() {
    let mut buffer = TextBuffer::from_lines(Vec::new());
    SOLTokenizer::update_token_chunks(&mut buffer);
    assert!(buffer.token_chunks.is_empty());
    assert!(buffer.flat_text.is_empty());
    assert_eq!(buffer.token_chunks_id, buffer.mutation_id);
}

#[test]
fn empty_line_is_sentinel_and_end_marker() {
    expect("", &[(TokenType::Whitespace, "\0"), (TokenType::Eof, "")]);
}

#[test]
fn spaces_and_tabs_run_together() {
    expect(
        "a   b",
        &[
            (TokenType::Identifier, "a"),
            (TokenType::Whitespace, "   "),
            (TokenType::Identifier, "b"),
            (TokenType::Whitespace, "\0"),
            (TokenType::Eof, ""),
        ],
    );
    expect(
        " \t x",
        &[
            (TokenType::Whitespace, " \t "),
            (TokenType::Identifier, "x"),
            (TokenType::Whitespace, "\0"),
            (TokenType::Eof, ""),
        ],
    );
    expect(
        "\t  \t",
        &[(TokenType::Whitespace, "\t  \t"), (TokenType::Whitespace, "\0"), (TokenType::Eof, "")],
    );
}

#[test]
fn comment_is_cut_at_spaces_and_not_at_tabs() {
    expect(
        "//a\tb  c",
        &[
            (TokenType::CommentLine, "//"),
            (TokenType::CommentChunk, "a\tb"),
            (TokenType::Whitespace, "  "),
            (TokenType::CommentChunk, "c"),
            (TokenType::Whitespace, "\0"),
            (TokenType::Eof, ""),
        ],
    );
}

#[test]
fn line_break_is_a_token_of_its_own() {
    expect(
        "a\n\nb",
        &[
            (TokenType::Identifier, "a"),
            (TokenType::Newline, "\n"),
            (TokenType::Newline, "\n"),
            (TokenType::Identifier, "b"),
            (TokenType::Whitespace, "\0"), (TokenType::Eof, ""),
        ],
    );
}

#[test]
fn nul_character_is_whitespace() {
    expect(
        "a\0b",
        &[
            (TokenType::Identifier, "a"),
            (TokenType::Whitespace, "\0"),
            (TokenType::Identifier, "b"),
            (TokenType::Whitespace, "\0"), (TokenType::Eof, ""),
        ],
    );
}

#[test]
fn line_comment_is_cut_at_spaces() {
    expect(
        "x // hi there\ny",
        &[
            (TokenType::Identifier, "x"),
            (TokenType::Whitespace, " "),
            (TokenType::CommentLine, "//"),
            (TokenType::Whitespace, " "),
            (TokenType::CommentChunk, "hi"),
            (TokenType::Whitespace, " "),
            (TokenType::CommentChunk, "there"),
            (TokenType::Newline, "\n"),
            (TokenType::Identifier, "y"),
            (TokenType::Whitespace, "\0"), (TokenType::Eof, ""),
        ],
    );
}

#[test]
fn block_comment_goes_over_lines() {
    expect(
        "/* a\nb */c",
        &[
            (TokenType::CommentMultiBegin, "/*"),
            (TokenType::Whitespace, " "),
            (TokenType::CommentChunk, "a"),
            (TokenType::Newline, "\n"),
            (TokenType::CommentChunk, "b"),
            (TokenType::Whitespace, " "),
            (TokenType::CommentMultiEnd, "*/"),
            (TokenType::Identifier, "c"),
            (TokenType::Whitespace, "\0"), (TokenType::Eof, ""),
        ],
    );
    expect(
        "/*ab*/",
        &[
            (TokenType::CommentMultiBegin, "/*"),
            (TokenType::CommentMultiEnd, "ab*/"),
            (TokenType::Whitespace, "\0"), (TokenType::Eof, ""),
        ],
    );
}

#[test]
fn block_comments_do_not_nest() {
    expect(
        "/* /* */ */",
        &[
            (TokenType::CommentMultiBegin, "/*"),
            (TokenType::Whitespace, " "),
            (TokenType::CommentChunk, "/*"),
            (TokenType::Whitespace, " "),
            (TokenType::CommentMultiEnd, "*/"),
            (TokenType::Whitespace, " "),
            (TokenType::Unexpected, "*/"),
            (TokenType::Whitespace, "\0"), (TokenType::Eof, ""),
        ],
    );
}

#[test]
fn comment_closer_ends_a_line_comment_too() {
    expect(
        "//a*/b",
        &[
            (TokenType::CommentLine, "//"),
            (TokenType::CommentMultiEnd, "a*/"),
            (TokenType::Identifier, "b"),
            (TokenType::Whitespace, "\0"), (TokenType::Eof, ""),
        ],
    );
}

#[test]
fn comment_without_end_runs_to_the_end() {
    expect(
        "/* open",
        &[
            (TokenType::CommentMultiBegin, "/*"),
            (TokenType::Whitespace, " "),
            (TokenType::CommentChunk, "open"),
            (TokenType::Whitespace, "\0"), (TokenType::Eof, ""),
        ],
    );
    expect("//", &[(TokenType::CommentLine, "//"), (TokenType::Whitespace, "\0"), (TokenType::Eof, "")]);
    expect("/*", &[(TokenType::CommentMultiBegin, "/*"), (TokenType::Whitespace, "\0"), (TokenType::Eof, "")]);
}

#[test]
fn nul_character_ends_a_comment() {
    expect(
        "/*a\0b",
        &[
            (TokenType::CommentMultiBegin, "/*"),
            (TokenType::CommentChunk, "a"),
            (TokenType::Whitespace, "\0"),
            (TokenType::Identifier, "b"),
            (TokenType::Whitespace, "\0"), (TokenType::Eof, ""),
        ],
    );
    expect(
        "//\0",
        &[(TokenType::CommentLine, "//"), (TokenType::Whitespace, "\0"), (TokenType::Whitespace, "\0"), (TokenType::Eof, "")],
    );
}

#[test]
fn strings_end_at_their_quote() {
    expect(
        "\"a b\"c",
        &[(TokenType::String, "\"a b\""), (TokenType::Identifier, "c"), (TokenType::Whitespace, "\0"), (TokenType::Eof, "")],
    );
    expect(
        "'a\"b'",
        &[(TokenType::String, "'a\"b'"), (TokenType::Whitespace, "\0"), (TokenType::Eof, "")],
    );
}

#[test]
fn escaped_quote_does_not_end_a_string() {
    assert_eq!(first_kind("\"a\\\"b\" c"), (TokenType::String, "\"a\\\"b\"".to_string()));
    assert_eq!(first_kind("\"a\\\\\" c"), (TokenType::String, "\"a\\\\\"".to_string()));
    assert_eq!(first_kind("\"\\\\\\\"\" c"), (TokenType::String, "\"\\\\\\\"\"".to_string()));
}

#[test]
fn unicode_escape_takes_all_hex_digits() {
    assert_eq!(first_kind("\"\\u00fFg\""), (TokenType::String, "\"\\u00fFg\"".to_string()));
    assert_eq!(first_kind("\"\\u\""), (TokenType::String, "\"\\u\"".to_string()));
    assert_eq!(first_kind("\"\\uabcdef0123\" x"), (TokenType::String, "\"\\uabcdef0123\"".to_string()));
}

#[test]
fn string_without_end_stops_at_the_line_break() {
    expect(
        "\"ab\nc",
        &[
            (TokenType::String, "\"ab"),
            (TokenType::Newline, "\n"),
            (TokenType::Identifier, "c"),
            (TokenType::Whitespace, "\0"), (TokenType::Eof, ""),
        ],
    );
    expect(
        "\"ab\\",
        &[(TokenType::String, "\"ab\\"), (TokenType::Whitespace, "\0"), (TokenType::Eof, "")],
    );
    expect(
        "= /ab",
        &[
            (TokenType::Operator, "="),
            (TokenType::Whitespace, " "),
            (TokenType::Regex, "/ab"),
            (TokenType::Whitespace, "\0"),
            (TokenType::Eof, ""),
        ],
    );
    expect(
        "\"ab\\\nc",
        &[
            (TokenType::String, "\"ab\\"),
            (TokenType::Newline, "\n"),
            (TokenType::Identifier, "c"),
            (TokenType::Whitespace, "\0"), (TokenType::Eof, ""),
        ],
    );
}

#[test]
fn numbers_take_their_digits() {
    assert_eq!(first_kind("0x1F_a g"), (TokenType::Number, "0x1F_a".to_string()));
    assert_eq!(first_kind("0b1012"), (TokenType::Number, "0b101".to_string()));
    assert_eq!(first_kind("1b012"), (TokenType::Number, "1b01".to_string()));
    assert_eq!(first_kind("12_3.4_5x"), (TokenType::Number, "12_3.4_5".to_string()));
    assert_eq!(first_kind("7."), (TokenType::Number, "7.".to_string()));
    assert_eq!(first_kind("1e5"), (TokenType::Number, "1".to_string()));
    expect(
        "1.2.3",
        &[
            (TokenType::Number, "1.2"),
            (TokenType::Operator, "."),
            (TokenType::Number, "3"),
            (TokenType::Whitespace, "\0"), (TokenType::Eof, ""),
        ],
    );
}

#[test]
fn operators_are_put_together() {
    let cases = [
        ("==", TokenType::Operator),
        ("===", TokenType::Operator),
        ("=>", TokenType::Operator),
        ("!=", TokenType::Operator),
        ("!==", TokenType::Operator),
        ("&&", TokenType::Operator),
        ("&=", TokenType::Operator),
        ("||", TokenType::Operator),
        ("|=", TokenType::Operator),
        ("->", TokenType::Operator),
        ("-=", TokenType::Operator),
        ("--", TokenType::Operator),
        ("+=", TokenType::Operator),
        ("++", TokenType::Operator),
        ("*=", TokenType::Operator),
        ("*/", TokenType::Unexpected),
        ("<=", TokenType::Operator),
        ("<<", TokenType::Operator),
        (">=", TokenType::Operator),
        (">>", TokenType::Operator),
        ("..", TokenType::Splat),
        (";.", TokenType::Delimiter),
    ];
    for (text, kind) in cases {
        expect(text, &[(kind, text), (TokenType::Whitespace, "\0"), (TokenType::Eof, "")]);
    }
}

#[test]
fn single_characters_have_their_kind() {
    let cases = [
        (":", TokenType::Colon),
        (",", TokenType::Delimiter),
        (";", TokenType::Delimiter),
        ("(", TokenType::ParenOpen),
        ("{", TokenType::ParenOpen),
        ("[", TokenType::ParenOpen),
        (")", TokenType::ParenClose),
        ("}", TokenType::ParenClose),
        ("]", TokenType::ParenClose),
        (".", TokenType::Operator),
        ("=", TokenType::Operator),
        ("?", TokenType::Operator),
        ("#", TokenType::Operator),
        ("@", TokenType::Operator),
        ("%", TokenType::Operator),
        ("~", TokenType::Operator),
        ("\u{e9}", TokenType::Operator),
    ];
    for (text, kind) in cases {
        expect(text, &[(kind, text), (TokenType::Whitespace, "\0"), (TokenType::Eof, "")]);
    }
}

#[test]
fn longest_operator_wins_once() {
    expect(
        "====",
        &[(TokenType::Operator, "==="), (TokenType::Operator, "="), (TokenType::Whitespace, "\0"), (TokenType::Eof, "")],
    );
    expect(
        "+++",
        &[(TokenType::Operator, "++"), (TokenType::Operator, "+"), (TokenType::Whitespace, "\0"), (TokenType::Eof, "")],
    );
    expect(
        "...",
        &[(TokenType::Splat, ".."), (TokenType::Operator, "."), (TokenType::Whitespace, "\0"), (TokenType::Eof, "")],
    );
}

#[test]
fn names_and_calls() {
    expect(
        "foo(_x, $y1)",
        &[
            (TokenType::Call, "foo"),
            (TokenType::ParenOpen, "("),
            (TokenType::Identifier, "_x"),
            (TokenType::Delimiter, ","),
            (TokenType::Whitespace, " "),
            (TokenType::Identifier, "$y1"),
            (TokenType::ParenClose, ")"),
            (TokenType::Whitespace, "\0"), (TokenType::Eof, ""),
        ],
    );
    assert_eq!(first_kind("_f("), (TokenType::Call, "_f".to_string()));
    assert_eq!(first_kind("Zebra"), (TokenType::Identifier, "Zebra".to_string()));
    assert_eq!(first_kind("q9 ("), (TokenType::Identifier, "q9".to_string()));
}

#[test]
fn keyword_table() {
    let table = [
        ("address", TokenType::TypeName),
        ("assembly", TokenType::Flow),
        ("abi", TokenType::Keyword),
        ("break", TokenType::Flow),
        ("bool", TokenType::TypeName),
        ("bytes", TokenType::TypeName),
        ("block", TokenType::Keyword),
        ("contract", TokenType::Keyword),
        ("constant", TokenType::Keyword),
        ("continue", TokenType::Flow),
        ("delete", TokenType::Keyword),
        ("else", TokenType::Flow),
        ("enum", TokenType::Keyword),
        ("external", TokenType::Keyword),
        ("experimental", TokenType::Flow),
        ("emit", TokenType::Flow),
        ("event", TokenType::Fn),
        ("false", TokenType::Bool),
        ("finally", TokenType::Fn),
        ("for", TokenType::Looping),
        ("function", TokenType::Fn),
        ("is", TokenType::Flow),
        ("if", TokenType::Flow),
        ("import", TokenType::TypeDef),
        ("internal", TokenType::Keyword),
        ("interface", TokenType::Keyword),
        ("memory", TokenType::Keyword),
        ("msg", TokenType::Keyword),
        ("mapping", TokenType::Call),
        ("modifier", TokenType::Fn),
        ("new", TokenType::Keyword),
        ("public", TokenType::Keyword),
        ("pure", TokenType::Call),
        ("private", TokenType::Keyword),
        ("pragma", TokenType::Keyword),
        ("return", TokenType::Flow),
        ("returns", TokenType::Flow),
        ("super", TokenType::Keyword),
        ("struct", TokenType::TypeName),
        ("string", TokenType::TypeName),
        ("solidity", TokenType::Flow),
        ("try", TokenType::Keyword),
        ("true", TokenType::Bool),
        ("typeof", TokenType::Keyword),
        ("this", TokenType::Keyword),
        ("throw", TokenType::Flow),
        ("using", TokenType::Fn),
        ("view", TokenType::Call),
        ("while", TokenType::Looping),
    ];
    for (word, kind) in table {
        expect(word, &[(kind, word), (TokenType::Whitespace, "\0"), (TokenType::Eof, "")]);
        let spaced = format!("{} ", word);
        assert_eq!(first_kind(&spaced), (kind, word.to_string()));
        let longer = format!("{}q", word);
        assert_eq!(first_kind(&longer), (TokenType::Identifier, longer.clone()));
        let capital = format!("{}{}", word[..1].to_uppercase(), &word[1..]);
        assert_eq!(first_kind(&capital), (TokenType::Identifier, capital.clone()));
    }
}

#[test]
fn keyword_in_front_of_a_parenthesis_keeps_its_kind() {
    assert_eq!(first_kind("if("), (TokenType::Flow, "if".to_string()));
    assert_eq!(first_kind("uint8("), (TokenType::TypeName, "uint8".to_string()));
    assert_eq!(first_kind("uint7("), (TokenType::Call, "uint7".to_string()));
    assert_eq!(first_kind("int("), (TokenType::Call, "int".to_string()));
    assert_eq!(first_kind("co("), (TokenType::Call, "co".to_string()));
}

#[test]
fn sized_type_names() {
    for step in 1..=32 {
        let word = format!("bytes{}", step);
        assert_eq!(first_kind(&word), (TokenType::TypeName, word.clone()));
        let word = format!("int{}", 8 * step);
        assert_eq!(first_kind(&word), (TokenType::TypeName, word.clone()));
        let word = format!("uint{}", 8 * step);
        assert_eq!(first_kind(&word), (TokenType::TypeName, word.clone()));
    }
    for word in [
        "bytes0", "bytes33", "bytes01", "bytes032", "bytes100", "bytes99999999999999999999999",
        "int", "uint", "int0", "int7", "int9", "int08", "int264", "int1", "uint257", "uint12",
        "uint0256", "int2560", "uint18446744073709551624",
    ] {
        assert_eq!(first_kind(word), (TokenType::Identifier, word.to_string()), "{}", word);
    }
}

#[test]
fn end_marker_repeats() {
    let lines = lines_of("ab");
    let mut state = makepad_kit::cursor::TokenizerState::new(&lines);
    let mut tokenizer = SOLTokenizer::new();
    let mut flat = Vec::new();
    let chunks = Vec::new();
    assert_eq!(tokenizer.next_token(&mut state, &mut flat, &chunks), TokenType::Identifier);
    assert_eq!(tokenizer.next_token(&mut state, &mut flat, &chunks), TokenType::Whitespace);
    for _ in 0..3 {
        assert_eq!(tokenizer.next_token(&mut state, &mut flat, &chunks), TokenType::Eof);
        assert_eq!(flat, vec!['a', 'b', '\0']);
        assert!(state.eof);
    }
}

#[test]
fn end_of_the_text_closes_an_open_comment() {
    let lines = lines_of("/*");
    let mut state = makepad_kit::cursor::TokenizerState::new(&lines);
    let mut tokenizer = SOLTokenizer::new();
    let mut flat = Vec::new();
    let chunks = Vec::new();
    assert_eq!(tokenizer.next_token(&mut state, &mut flat, &chunks), TokenType::CommentMultiBegin);
    assert_eq!(tokenizer.comment_depth, 1);
    assert!(!tokenizer.comment_single);
    assert_eq!(tokenizer.next_token(&mut state, &mut flat, &chunks), TokenType::Whitespace);
    assert_eq!(tokenizer.comment_depth, 0);
    assert_eq!(tokenizer.next_token(&mut state, &mut flat, &chunks), TokenType::Eof);
    let mut state = makepad_kit::cursor::TokenizerState::new(&lines);
    while !state.eof {
        state.advance();
    }
    tokenizer.comment_depth = 3;
    assert_eq!(tokenizer.next_token(&mut state, &mut flat, &chunks), TokenType::Eof);
    assert_eq!(tokenizer.comment_depth, 0);
}

#[test]
fn deeper_comment_needs_as_many_closers() {
    let lines = lines_of("a*/b*/c");
    let mut state = makepad_kit::cursor::TokenizerState::new(&lines);
    let mut tokenizer = SOLTokenizer::new();
    tokenizer.comment_depth = 2;
    let mut flat = Vec::new();
    let chunks = Vec::new();
    assert_eq!(tokenizer.next_token(&mut state, &mut flat, &chunks), TokenType::CommentMultiEnd);
    assert_eq!(flat.iter().collect::<String>(), "a*/b*/");
    assert_eq!(tokenizer.comment_depth, 0);
    assert_eq!(tokenizer.next_token(&mut state, &mut flat, &chunks), TokenType::Identifier);
}

#[test]
fn next_token_reads_the_last_significant_chunk() {
    let lines = lines_of("/a/");
    let chunk = |token_type| TokenChunk { token_type, offset: 0, pair_token: None, len: 1, next: ' ' };
    let mut flat = Vec::new();
    let mut state = makepad_kit::cursor::TokenizerState::new(&lines);
    let before = vec![chunk(TokenType::Colon), chunk(TokenType::Whitespace), chunk(TokenType::Newline)];
    assert_eq!(SOLTokenizer::new().next_token(&mut state, &mut flat, &before), TokenType::Regex);
    assert_eq!(flat.iter().collect::<String>(), "/a/");
    let mut flat = Vec::new();
    let mut state = makepad_kit::cursor::TokenizerState::new(&lines);
    let before = vec![chunk(TokenType::Colon), chunk(TokenType::CommentChunk)];
    assert_eq!(SOLTokenizer::new().next_token(&mut state, &mut flat, &before), TokenType::Operator);
    assert_eq!(flat.iter().collect::<String>(), "/");
    let mut flat = Vec::new();
    let mut state = makepad_kit::cursor::TokenizerState::new(&lines);
    assert_eq!(SOLTokenizer::new().next_token(&mut state, &mut flat, &Vec::new()), TokenType::Operator);
}

#[test]
fn helpers_take_what_they_are_named_for() {
    let lines = lines_of("ab_$9-x12.5e \\n\\u12g");
    let mut state = makepad_kit::cursor::TokenizerState::new(&lines);
    let mut flat = Vec::new();
    assert!(SOLTokenizer::parse_sol_ident_tail(&mut state, &mut flat));
    assert_eq!(flat.iter().collect::<String>(), "ab_$9");
    assert!(!SOLTokenizer::parse_sol_ident_tail(&mut state, &mut flat));
    assert!(!SOLTokenizer::parse_sol_escape_char(&mut state, &mut flat));
    state.advance();
    SOLTokenizer::parse_sol_number_tail(&mut state, &mut flat);
    assert_eq!(flat.iter().collect::<String>(), "ab_$9x12");
    state.advance_with_cur();
    SOLTokenizer::parse_sol_number_tail(&mut state, &mut flat);
    assert_eq!(flat.iter().collect::<String>(), "ab_$9x125");
    state.advance();
    state.advance();
    assert!(SOLTokenizer::parse_sol_escape_char(&mut state, &mut flat));
    assert_eq!(flat.iter().collect::<String>(), "ab_$9x125\\n");
    assert!(SOLTokenizer::parse_sol_escape_char(&mut state, &mut flat));
    assert_eq!(flat.iter().collect::<String>(), "ab_$9x125\\n\\u12");
    assert_eq!(state.next, 'g');
}

#[test]
fn keyword_parser_takes_the_keyword_only() {
    let parse = |text: &str| {
        let lines = lines_of(text);
        let mut state = makepad_kit::cursor::TokenizerState::new(&lines);
        state.advance_with_cur();
        let mut flat = vec!['#'];
        let kind = SOLTokenizer::parse_sol_keyword(&mut state, &mut flat, &Vec::new());
        (kind, flat.iter().collect::<String>(), state.next)
    };
    assert_eq!(parse("returns x"), (TokenType::Flow, "#eturns".to_string(), ' '));
    assert_eq!(parse("returnsx"), (TokenType::Flow, "#eturns".to_string(), 'x'));
    assert_eq!(parse("return(x"), (TokenType::Flow, "#eturn".to_string(), '('));
    assert_eq!(parse("retur"), (TokenType::Identifier, "#".to_string(), 'e'));
    assert_eq!(parse("aB"), (TokenType::Identifier, "#".to_string(), 'B'));
    assert_eq!(parse("zebra("), (TokenType::Identifier, "#".to_string(), 'e'));
    assert_eq!(parse("z("), (TokenType::Call, "#".to_string(), '('));
    assert_eq!(parse("uint256["), (TokenType::TypeName, "#int256".to_string(), '['));
    assert_eq!(parse("uint257x"), (TokenType::Identifier, "#int257".to_string(), 'x'));
    assert_eq!(parse("uint7("), (TokenType::Call, "#int7".to_string(), '('));
    assert_eq!(parse("bytes"), (TokenType::TypeName, "#ytes".to_string(), '\0'));
    assert_eq!(parse("exmit"), (TokenType::Identifier, "#".to_string(), 'x'));
}

#[test]
fn rounds_can_be_taken_one_by_one() {
    let lines = lines_of("f(a) // c");
    let mut state = makepad_kit::cursor::TokenizerState::new(&lines);
    let mut tokenizer = SOLTokenizer::new();
    let mut flat = Vec::new();
    let mut chunks = Vec::new();
    let mut stack = Vec::new();
    let mut invalid = false;
    let mut seen = Vec::new();
    loop {
        let kind =
            tokenizer.next_chunk(&mut state, &mut flat, &mut chunks, &mut stack, &mut invalid);
        assert_eq!(chunks.last().unwrap().token_type, kind);
        seen.push((kind, chunks.len(), flat.len()));
        if kind == TokenType::Eof {
            break;
        }
    }
    assert_eq!(
        seen,
        vec![
            (TokenType::Call, 1, 1),
            (TokenType::ParenOpen, 2, 2),
            (TokenType::Identifier, 3, 3),
            (TokenType::ParenClose, 4, 4),
            (TokenType::Whitespace, 5, 5),
            (TokenType::CommentLine, 6, 7),
            (TokenType::Whitespace, 7, 8),
            (TokenType::CommentChunk, 8, 9),
            (TokenType::Whitespace, 9, 10),
            (TokenType::Eof, 10, 10),
        ]
    );
    assert!(!invalid && stack.is_empty());
    assert_eq!(tokenize("f(a) // c").token_chunks, chunks);
}
