use makepad_kit::format::{regex_closed, string_closed, FormatOutput, TokenParser};
use makepad_kit::solformat::{format_tokens, FormatPolicy, Formatter};
use makepad_kit::soltokenizer::SOLTokenizer;
use makepad_kit::textbuffer::TextBuffer;
use makepad_kit::token::{TokenChunk, TokenType};

fn lines_of(text: &str) -> Vec<Vec<char>> {
    text.split('\n').map(|line| line.chars().collect()).collect()
}

fn tokenize(text: &str) -> TextBuffer {
    let mut buffer = TextBuffer::from_lines(lines_of(text));
    SOLTokenizer::update_token_chunks(&mut buffer);
    buffer
}

fn format(text: &str) -> String {
    let mut buffer = tokenize(text);
    let out = SOLTokenizer::auto_format(&mut buffer);
    let lines: Vec<String> = out.out_lines.iter().map(|line| line.iter().collect()).collect();
    lines.join("\n")
}

#[test]
fn operators_between_operands_are_spaced() {
    assert_eq!(format("a=b\n"), "a = b\n");
    assert_eq!(format("a   =   b\n"), "a = b\n");
    assert_eq!(format("a+=b*c\n"), "a += b * c\n");
    assert_eq!(format("x?y\n"), "x? y\n");
}

#[test]
fn operators_in_front_of_an_operand_close_up() {
    assert_eq!(format("a = -b\n"), "a = -b\n");
    assert_eq!(format("a = - b\n"), "a = -b\n");
    assert_eq!(format("f(*p, &q, !r)\n"), "f(*p, &q, !r)\n");
    assert_eq!(format("a.b\n"), "a.b\n");
    assert_eq!(format("a - b\n"), "a - b\n");
}

#[test]
fn separator_ends_the_line_at_the_top() {
    assert_eq!(format("a=b;\n"), "a = b;\n");
    assert_eq!(format("a=b;"), "a = b;\n");
    assert_eq!(format("a;b\n"), "a;\nb\n");
    assert_eq!(format("a;\nb\n"), "a;\nb\n");
}

#[test]
fn group_opened_with_a_line_break_is_laid_out_over_lines() {
    assert_eq!(format("{\na,b\n}\n"), "{\n    a,\n    b\n}\n");
    assert_eq!(format("f(\na, b, c)\n"), "f(\n    a,\n    b,\n    c\n)\n");
    assert_eq!(format("{\n{\na;b\n}\n}\n"), "{\n    {\n        a;\n        b\n    }\n}\n");
}

#[test]
fn group_opened_on_its_line_stays_on_it() {
    assert_eq!(format("{a,b}\n"), "{a, b}\n");
    assert_eq!(format("f(a,b,c,d,e)\n"), "f(a, b, c, d, e)\n");
    assert_eq!(format("f(a,\nb,\nc)\n"), "f(a, b, c)\n");
    assert_eq!(format("f(a ,\n\n  b\n,c)\n"), "f(a, b, c)\n");
    assert_eq!(format("[1, \n\n 2]\n"), "[1, 2]\n");
    assert_eq!(format("[1,\n\n2]\n"), "[1, 2]\n");
    assert_eq!(format("(a +\nb)\n"), "(a + b)\n");
    assert_eq!(format("(a.\nb)\n"), "(a.b)\n");
    assert_eq!(format("{a:\nb}\n"), "{a: b}\n");
    assert_eq!(format("f(a, b\n)\n"), "f(a, b)\n");
}

#[test]
fn brace_gets_a_space_in_front() {
    assert_eq!(format("contract A{}\n"), "contract A {}\n");
    assert_eq!(format("f(){}\n"), "f() {}\n");
    assert_eq!(format("a:{}\n"), "a: {}\n");
    assert_eq!(format("({})\n"), "({})\n");
}

#[test]
fn parenthesis_behind_a_keyword_gets_a_space() {
    assert_eq!(format("if(a)\n"), "if (a)\n");
    assert_eq!(format("while(a)\n"), "while (a)\n");
    assert_eq!(format("new(a)\n"), "new (a)\n");
    assert_eq!(format("f(a)\n"), "f(a)\n");
}

#[test]
fn colon_closes_up_and_is_followed_by_a_space() {
    assert_eq!(format("a :b\n"), "a: b\n");
    assert_eq!(format("a : b\n"), "a: b\n");
}

#[test]
fn comments_and_strings_are_kept() {
    assert_eq!(format("x //  a   b\n"), "x //  a   b\n");
    assert_eq!(format("/*  a  ,  b  */\n"), "/*  a  ,  b  */\n");
    assert_eq!(format("s = \"a  ,  b;c\"\n"), "s = \"a  ,  b;c\"\n");
    assert_eq!(format("x   // c\ny\n"), "x // c\ny\n");
}

#[test]
fn comments_keep_their_line_breaks_and_spaces() {
    assert_eq!(format("/* a  \n   b  \n*/ c\n"), "/* a  \n   b  \n*/ c\n");
    assert_eq!(format("f(/* a\nb */ c)\n"), "f(/* a\nb */ c)\n");
    assert_eq!(format("x // c  \ny\n"), "x // c  \ny\n");
    assert_eq!(format("f(a, // c\nb)\n"), "f(a, // c\nb)\n");
    assert_eq!(format("{\n/* a\n\n b */\nx\n}\n"), "{\n    /* a\n\n b */\n    x\n}\n");
}

#[test]
fn line_of_a_contract() {
    let source = "contract A{\nuint8 x=1;\nfunction f(uint a,uint b) public returns(uint){\nreturn a+b;\n}\n}\n";
    let wanted = "contract A {\n    uint8 x = 1;\n    function f(uint a, uint b) public returns (uint) {\n        return a + b;\n    }\n}\n";
    assert_eq!(format(source), wanted);
}

#[test]
fn formatting_twice_changes_nothing_more() {
    for source in [
        "a=b;\n",
        "a=b",
        "// c",
        "- -a\n",
        "--a\n",
        "f(a,\nb,\nc)\n",
        "[1,\n\n2]\n",
        "(a +\nb)\n",
        "{a:\nb}\n",
        "x = \"s",
        "(a\nb)\n",
        "x++\n",
        "a?b:c\n",
        "{\na, // c\nb\n}\n",
        "a\n+ b\n",
        "a)\nb\n",
        "{\na\n\nb\n}\n",
        "/* a\n  b  \n*/ c\n",
        "f(\na, {b,\nc}, d)\n",
        "if(a)b;else{c}\n",
        "a.b(c).d[e]\n",
        "x = /ab/g\n",
        "f( a , b )\n",
        "a = b ;\n",
        "{ }\n",
        "a;;b\n",
        "f(a, // c\nb)\n",
        "f(/* a\nb */ c)\n",
        "x // c  \ny\n",
        "a  +  +  b\n",
        "a ? b\n",
        "x = (\n  a,\n  b\n);\n",
        "for(i=0;i<n;i++){\nx\n}\n",
        "a . b\n",
        "a :: b\n",
        "f ( )\n",
        "a,b\n",
        "{a;b}\n",
        "(\n)\n",
        "a\n\n\nb\n",
        "  a\n",
        "\ta\n",
        "a /* c */ b\n",
        "a /* c\n*/\n",
        "/* c */\n",
        "x = \"a\\\"b\" + 'c'\n",
        "a = b\n  + c\n",
        "if (a) {\n} else {\n}\n",
        "a =\nb\n",
        "a ,\nb\n",
        "{\na ,\n\nb\n}\n",
        "f(a)(b)\n",
        "a[ 1 ] = - 2\n",
        "x .. y\n",
        "*/\n",
        "a: b\n",
        "{ a: {\nb: c\n} }\n",
        ":a\n",
        "x ? y\n: z\n",
        "!{}\n",
        "! {}\n",
        "a = {}\n",
        "x = \"abc   \ny\n",
        "x = /abc   \ny\n",
        "a * /b/\n",
        "a * /* c */ b\n",
        "a * */\n",
        "//a*/ b  c\n",
        "(a\nb)\n",
        "{\n{'x\n\n",
        "{\na,b\n}\n",
        "f(a,b,c)\n",
        "contract A{\nuint8 x=1;\nfunction f(uint a,uint b) public returns(uint){\nreturn a+b;\n}\n}\n",
        "x   // c\ny",
        "if(a){\nb;c\n}else{\nd\n}\n",
    ] {
        let once = format(source);
        assert_eq!(format(&once), once, "for {:?}", source);
    }
}

#[test]
fn end_of_the_text_writes_nothing() {
    assert_eq!(format("a=b"), "a = b");
    assert_eq!(format("f()"), "f()");
    assert_eq!(format("// c"), "// c");
    assert_eq!(format("/* c"), "/* c");
    assert_eq!(format("\"s"), "\"s");
    assert_eq!(format("a  "), "a ");
    assert_eq!(format(""), "");
}

#[test]
fn operators_stay_apart() {
    assert_eq!(format("- -a\n"), "- -a\n");
    assert_eq!(format("a - -b\n"), "a - -b\n");
    assert_eq!(format("a = -b\n"), "a = -b\n");
    assert_eq!(format("!  !a\n"), "! !a\n");
}

#[test]
fn operator_that_goes_on_with_a_line_is_indented_deeper() {
    assert_eq!(format("a\n+ b\n"), "a\n    + b\n");
    assert_eq!(format("a =\n-b\n"), "a =\n-b\n");
}

#[test]
fn closer_without_opener_goes_back_to_the_margin() {
    assert_eq!(format("}\n"), "}\n");
    assert_eq!(format("a)\nb\n"), "a\n)\nb\n");
    assert_eq!(format("{\na\n}}\nb\n"), "{\n    a\n}\n}\nb\n");
}

#[test]
fn comment_behind_a_separator_gets_a_line_of_its_own() {
    assert_eq!(format("{\na, // c\nb\n}\n"), "{\n    a,\n    // c\n    b\n}\n");
}

#[test]
fn empty_line_gets_the_indentation() {
    assert_eq!(format("a\n\nb\n"), "a\n\nb\n");
    assert_eq!(format("{\na\n\nb\n}\n"), "{\n    a\n    \n    b\n}\n");
}

#[test]
fn line_break_behind_the_opener_counts_over_spaces_and_separators() {
    assert_eq!(format("(  \na)\n"), "(\n    a\n)\n");
    assert_eq!(format("(a\nb)\n"), "(a b)\n");
    assert_eq!(format("(-\nb)\n"), "(-\n    b\n)\n");
    assert_eq!(format("(a,-\nb)\n"), "(a, -b)\n");
    assert_eq!(format("f('a'\n, b)\n"), "f('a', b)\n");
    assert_eq!(format("f('a\n, b)\n"), "f('a\n, b)\n");
}

#[test]
fn steps_can_be_taken_one_by_one() {
    let buffer = tokenize("f(a)");
    let policy = FormatPolicy { extra_spacey: false, pre_spacey: true };
    let mut formatter = Formatter::new();
    let mut parser = TokenParser::new(&buffer.flat_text, &buffer.token_chunks);
    assert!(parser.advance());
    formatter.step(&parser, policy);
    assert!(!formatter.first_on_line && !formatter.is_unary_operator);
    assert!(parser.advance());
    formatter.step(&parser, policy);
    assert!(formatter.first_after_open && formatter.is_unary_operator);
    assert_eq!(formatter.paren_stack.len(), 2);
    assert!(parser.advance());
    formatter.step(&parser, policy);
    assert!(!formatter.first_after_open);
    assert!(parser.advance());
    formatter.step(&parser, policy);
    assert_eq!(formatter.paren_stack.len(), 1);
    assert_eq!(formatter.out.out_lines, vec![vec!['f', '(', 'a', ')']]);
    assert!(parser.advance());
    formatter.step(&parser, policy);
    assert_eq!(formatter.out.out_lines, vec![vec!['f', '(', 'a', ')']]);
    assert!(parser.advance());
    assert_eq!(parser.cur_type(), TokenType::Eof);
    formatter.step(&parser, policy);
    assert_eq!(formatter.out.out_lines, vec![vec!['f', '(', 'a', ')']]);
    assert!(!parser.advance());
}

#[test]
fn pass_ends_at_the_end_marker() {
    let flat: Vec<char> = "ab".chars().collect();
    let chunk = |token_type, offset, len| TokenChunk { token_type, offset, pair_token: None, len, next: ' ' };
    let chunks = vec![
        chunk(TokenType::Identifier, 0, 1),
        chunk(TokenType::Eof, 1, 0),
        chunk(TokenType::Identifier, 1, 1),
    ];
    let policy = FormatPolicy { extra_spacey: false, pre_spacey: true };
    let out = format_tokens(&flat, &chunks, policy);
    assert_eq!(out.out_lines, vec![vec!['a']]);
    let out = format_tokens(&flat, &Vec::new(), policy);
    assert_eq!(out.out_lines, vec![Vec::<char>::new()]);
}

#[test]
fn policies_of_other_dialects() {
    let buffer = tokenize("f{a}\n");
    let spacey = FormatPolicy { extra_spacey: true, pre_spacey: true };
    let out = format_tokens(&buffer.flat_text, &buffer.token_chunks, spacey);
    assert_eq!(out.out_lines[0].iter().collect::<String>(), "f { a }");
    let tight = FormatPolicy { extra_spacey: false, pre_spacey: false };
    let out = format_tokens(&buffer.flat_text, &buffer.token_chunks, tight);
    assert_eq!(out.out_lines[0].iter().collect::<String>(), "f{a}");
    let buffer = tokenize("f {a}\n");
    let out = format_tokens(&buffer.flat_text, &buffer.token_chunks, tight);
    assert_eq!(out.out_lines[0].iter().collect::<String>(), "f{a}");
}

#[test]
fn output_buffer_operations() {
    let mut out = FormatOutput::new();
    assert!(out.out_lines.is_empty());
    out.new_line();
    assert!(!out.ends_in_space());
    out.add_space();
    assert!(out.ends_in_space());
    assert_eq!(out.out_lines, vec![vec![' ']]);
    out.add_space();
    assert_eq!(out.out_lines, vec![vec![' ']]);
    out.extend(&['a', ' ', ' ']);
    out.strip_space();
    assert_eq!(out.out_lines, vec![vec![' ', 'a', ' ']]);
    out.strip_space();
    out.strip_space();
    assert_eq!(out.out_lines, vec![vec![' ', 'a']]);
    out.new_line();
    out.strip_space();
    out.indent(3);
    out.indent(0);
    out.extend(&[]);
    out.extend(&['b']);
    assert_eq!(out.out_lines, vec![vec![' ', 'a'], vec![' ', ' ', ' ', 'b']]);
}

#[test]
fn parser_shows_the_neighbours() {
    let buffer = tokenize("ab  (");
    let mut parser = TokenParser::new(&buffer.flat_text, &buffer.token_chunks);
    assert!(parser.advance());
    assert_eq!(parser.prev_type(), TokenType::Unexpected);
    assert_eq!(parser.cur_type(), TokenType::Identifier);
    assert_eq!(parser.next_type(), TokenType::Whitespace);
    assert_eq!(parser.prev_char(), '\0');
    assert_eq!(parser.cur_char(), '\0');
    assert_eq!(parser.cur_chunk(), &['a', 'b']);
    assert!(parser.advance());
    assert_eq!(parser.cur_char(), ' ');
    assert_eq!(parser.cur_chunk(), &[' ', ' ']);
    assert!(parser.advance());
    assert_eq!(parser.prev_char(), ' ');
    assert_eq!(parser.cur_char(), '(');
    assert_eq!(parser.prev_type(), TokenType::Whitespace);
    assert_eq!(parser.next_type(), TokenType::Whitespace);
    assert!(parser.advance());
    assert_eq!(parser.cur_char(), '\0');
    assert_eq!(parser.next_type(), TokenType::Eof);
    assert!(parser.advance());
    assert_eq!(parser.cur_type(), TokenType::Eof);
    assert_eq!(parser.next_type(), TokenType::Unexpected);
    assert_eq!(parser.prev_char(), '\0');
    assert!(!parser.advance());
    assert_eq!((parser.index, parser.next_index), (4, 5));
}

fn random_sources(mut seed: u64, count: usize, max_len: usize) -> Vec<String> {
    let pieces = [
        "a", "b", "1", " ", " ", "\n", "\n", "\t", "(", ")", "{", "}", "[", "]", ",", ";", ":",
        ".", "+", "-", "*", "/", "=", "!", "?", "<", ">", "&", "|", "\"", "'", "\\", "_", "#",
        "if", "return", "for", "x", "//", "/*", "*/", "0x", "u", "g",
    ];
    let mut next = move || {
        seed ^= seed << 13;
        seed ^= seed >> 7;
        seed ^= seed << 17;
        seed
    };
    let mut sources = Vec::new();
    for _ in 0..count {
        let len = 1 + (next() % max_len as u64) as usize;
        let mut source = String::new();
        for _ in 0..len {
            source.push_str(pieces[(next() % pieces.len() as u64) as usize]);
        }
        sources.push(source);
    }
    sources
}

fn random_code(mut seed: u64, count: usize, max_len: usize) -> Vec<String> {
    let pieces = [
        "a", "b", "x1", "7", "1.5", "0x1f", " ", "  ", "\n", "\n", "\t", "\0", "(", ")", "{", "}",
        "[", "]", ",", ";", ":", ".", "..", "+", "-", "*", "/", "=", "==", "=>", "->", "+=",
        "!", "!=", "?", "<", ">", "&&", "||", "\"", "'", "\\", "\\\"", "\\u", "//", "/*", "*/",
        "if", "else", "return", "for", "while", "contract", "function", "uint8", "bytes",
        "mapping", "{\n", ",\n", ";\n", "(\n", "\n}", " {\n",
    ];
    let mut next = move || {
        seed ^= seed << 13;
        seed ^= seed >> 7;
        seed ^= seed << 17;
        seed
    };
    let mut sources = Vec::new();
    for _ in 0..count {
        let len = 1 + (next() % max_len as u64) as usize;
        let mut source = String::new();
        for _ in 0..len {
            source.push_str(pieces[(next() % pieces.len() as u64) as usize]);
        }
        sources.push(source);
    }
    sources
}

#[test]
fn formatting_twice_holds_on_random_code() {
    let mut failures: Vec<(String, String, String)> = Vec::new();
    for source in random_code(0xd1b54a32d192ed03, 1000000, 14) {
        let once = format(&source);
        let twice = format(&once);
        if once != twice {
            failures.push((source, once, twice));
        }
    }
    failures.sort_by_key(|failure| failure.0.len());
    failures.truncate(8);
    assert!(failures.is_empty(), "{:#?}", failures);
}

#[test]
fn formatting_twice_holds_on_random_text() {
    let mut failures: Vec<(String, String, String)> = Vec::new();
    let short = random_sources(0x2545f4914f6cdd1d, 1200000, 9);
    let long = random_sources(0x9e3779b97f4a7c15, 300000, 24);
    for source in short.into_iter().chain(long) {
        let once = format(&source);
        let twice = format(&once);
        if once != twice {
            failures.push((source, once, twice));
        }
    }
    failures.sort_by_key(|failure| failure.0.len());
    failures.truncate(8);
    assert!(failures.is_empty(), "{:#?}", failures);
}

#[test]
fn colon_begins_its_line_like_any_token() {
    assert_eq!(format(":a\n"), ": a\n");
    assert_eq!(format(": a\n"), ": a\n");
    assert_eq!(format("{\nx ? y\n: z\n}\n"), "{\n    x? y\n    : z\n}\n");
}

#[test]
fn brace_goes_by_the_token_before_it() {
    assert_eq!(format("!{}\n"), "!{}\n");
    assert_eq!(format("! {}\n"), "!{}\n");
    assert_eq!(format("a={}\n"), "a = {}\n");
    assert_eq!(format("f()  {}\n"), "f() {}\n");
    assert_eq!(format("a,{}\n"), "a,\n{}\n");
    assert_eq!(format("(a,{})\n"), "(a, {})\n");
}

#[test]
fn line_end_of_a_string_is_left_alone() {
    assert_eq!(format("x = \"abc   \ny\n"), "x = \"abc   \ny\n");
    assert_eq!(format("f(\"abc  \ny)\n"), "f(\"abc  \ny)\n");
    assert_eq!(format("x = /abc  \ny\n"), "x = /abc  \ny\n");
}

#[test]
fn blank_stays_where_tokens_would_run_together() {
    assert_eq!(format("a * /b/\n"), "a * /b/\n");
    assert_eq!(format("a * /* c */ b\n"), "a * /* c */ b\n");
    assert_eq!(format("a . .. b\n"), "a . .. b\n");
    assert_eq!(format("a. ..b\n"), "a. ..b\n");
    assert_eq!(format("a = = b\n"), "a = = b\n");
}

#[test]
fn comment_closer_ends_a_line_comment_for_the_formatter_too() {
    assert_eq!(format("//a*/ b   c\n"), "//a*/ b c\n");
}

#[test]
fn formatting_twice_holds_on_every_short_text() {
    let pieces = [
        "a", "1", " ", "\n", "\t", "\0", "(", ")", "{", "}", "[", "]", ",", ";", ":", ".", "+",
        "-", "*", "/", "=", "!", "?", "<", ">", "&", "|", "\"", "'", "\\", "_", "#", "%", "^", "~",
        "@", "$", "`", "\u{e9}", "\r", "if", "//", "/*", "*/", "x",
    ];
    let mut failures: Vec<(String, String, String)> = Vec::new();
    let mut total = 1usize;
    for len in 1..4usize {
        total *= pieces.len();
        for tail in ["", "\n"] {
            for code in 0..total {
                let mut source = String::new();
                let mut rest = code;
                for _ in 0..len {
                    source.push_str(pieces[rest % pieces.len()]);
                    rest /= pieces.len();
                }
                source.push_str(tail);
                let once = format(&source);
                let twice = format(&once);
                if once != twice {
                    failures.push((source, once, twice));
                }
            }
        }
    }
    failures.sort_by_key(|failure| failure.0.len());
    failures.truncate(8);
    assert!(failures.is_empty(), "{:#?}", failures);
}

#[test]
fn closing_marks_are_found() {
    let closed = |text: &str| string_closed(&text.chars().collect::<Vec<char>>());
    assert!(closed("\"a\""));
    assert!(closed("''"));
    assert!(closed("'a\\\\'"));
    assert!(!closed("\"a"));
    assert!(!closed("\""));
    assert!(!closed("\"a\\\""));
    assert!(!closed("\"a'"));
    assert!(!closed("\"a\\"));
    assert!(!closed(""));
    let closed = |text: &str| regex_closed(&text.chars().collect::<Vec<char>>());
    assert!(closed("/ab/"));
    assert!(closed("/ab/gi"));
    assert!(closed("/a\\\\/"));
    assert!(!closed("/ab"));
    assert!(!closed("/"));
    assert!(!closed("/a\\/"));
    assert!(!closed(""));
}

#[test]
fn group_with_closed_strings_stays_on_one_line() {
    assert_eq!(format("f(\"a\",\n\"b\"\n)\n"), "f(\"a\", \"b\")\n");
    assert_eq!(format("x = ['a',\n     'b'\n]\n"), "x = ['a', 'b']\n");
    assert_eq!(format("f(\"a\n)\n"), "f(\"a\n)\n");
}
