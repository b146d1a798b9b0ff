//! The lexical grammar of the contract language: for every place in a text,
//! the kind of the token that begins there and the place where it ends. The
//! text of a document ends with the end sentinel `'\0'`, which the cursor puts
//! behind the last line; no token but the whitespace token of that one
//! character takes it, so that every document ends with that token and the
//! end marker.

use vstd::prelude::*;
use crate::cursor::{char_at, is_digit, is_hex, is_letter, stands_at};
use crate::text::decimal_value;
use crate::token::{last_significant, pushed, TokenChunk, TokenType};

verus! {

/// The sets of characters that a token can run over.
#[derive(Clone, Copy, Debug, PartialEq, Eq, Structural)]
pub enum CharClass {
    /// The space character.
    Space,
    /// The space and the tab.
    Blank,
    /// Letters, digits, `_` and `$`.
    Ident,
    /// Decimal digits.
    Digit,
    /// Decimal digits and `_`.
    Decimal,
    /// Hexadecimal digits.
    Hex,
    /// Hexadecimal digits and `_`.
    HexNumber,
    /// `0`, `1` and `_`.
    Binary,
    /// The flag letters that may follow a regular expression.
    RegexFlag,
}

impl CharClass {
    /// Whether `c` belongs to the class.
    pub open spec fn holds(self, c: char) -> bool {
        match self {
            CharClass::Space => c == ' ',
            CharClass::Blank => c == ' ' || c == '\t',
            CharClass::Ident => is_digit(c) || is_letter(c) || c == '_' || c == '$',
            CharClass::Digit => is_digit(c),
            CharClass::Decimal => is_digit(c) || c == '_',
            CharClass::Hex => is_hex(c),
            CharClass::HexNumber => is_hex(c) || c == '_',
            CharClass::Binary => c == '0' || c == '1' || c == '_',
            CharClass::RegexFlag => c == 'g' || c == 'i' || c == 'm' || c == 's' || c == 'u' || c
                == 'y',
        }
    }
}

/// The end of the longest run of characters of `class` that begins at `i`.
pub open spec fn run_end(text: Seq<char>, i: int, class: CharClass) -> int
    decreases text.len() - i,
{
    if 0 <= i < text.len() && class.holds(text[i]) {
        run_end(text, i + 1, class)
    } else {
        i
    }
}

/// A run ends at or after its start, and inside the text if it began there.
pub proof fn lemma_run_end_bounds(text: Seq<char>, i: int, class: CharClass)
    ensures
        i <= run_end(text, i, class),
        i <= text.len() ==> run_end(text, i, class) <= text.len(),
        !class.holds(char_at(text, run_end(text, i, class))) || run_end(text, i, class) < 0
            || run_end(text, i, class) >= text.len(),
    decreases text.len() - i,
{
    if 0 <= i < text.len() && class.holds(text[i]) {
        lemma_run_end_bounds(text, i + 1, class);
    }
}

/// A token as the grammar gives it: its kind, the place behind its last
/// character, and the comment state that it leaves.
pub struct Lexed {
    pub kind: TokenType,
    pub end: int,
    pub depth: nat,
    pub single: bool,
}

/// `Call` in front of an opening parenthesis, `Identifier` elsewhere.
pub open spec fn name_kind(follower: char) -> TokenType {
    if follower == '(' {
        TokenType::Call
    } else {
        TokenType::Identifier
    }
}

/// `digits` writes, without a leading zero, one of the widths `unit`,
/// `2 * unit`, up to `32 * unit`.
pub open spec fn is_width(digits: Seq<char>, unit: nat) -> bool {
    &&& digits.len() > 0
    &&& forall|i: int| 0 <= i < digits.len() ==> is_digit(#[trigger] digits[i])
    &&& digits[0] != '0'
    &&& unit <= decimal_value(digits) <= 32 * unit
    &&& decimal_value(digits) % unit == 0
}

/// What the keyword table finds behind the first letter of a word: how many
/// further characters it takes, and the kind that the word has if it ends
/// there.
pub struct Hit {
    pub len: nat,
    pub kind: TokenType,
}

/// The entry of a keyword table for the rest `word` of a keyword.
pub open spec fn hit(word: Seq<char>, kind: TokenType) -> Hit {
    Hit { len: word.len(), kind }
}

/// No keyword stands here: nothing is taken, and the word is a name.
pub open spec fn miss(text: Seq<char>, p: int) -> Hit {
    Hit { len: 0, kind: name_kind(char_at(text, p)) }
}

/// A type name with a width: the digits behind `stem` are taken, and the word
/// is a type name where they write a width in steps of `unit`, or where
/// `bare` allows the stem alone and no digit follows.
pub open spec fn sized(text: Seq<char>, p: int, stem: Seq<char>, unit: nat, bare: bool) -> Hit {
    let from = p + stem.len();
    let to = run_end(text, from, CharClass::Digit);
    Hit {
        len: (to - p) as nat,
        kind: if (bare && to == from) || is_width(text.subrange(from, to), unit) {
            TokenType::TypeName
        } else {
            name_kind(char_at(text, to))
        },
    }
}

/// The keyword table. `first` is the first letter of a word and `p` the place
/// behind it. Of the rests listed under the letter, the first one that stands
/// at `p` is taken.
#[verifier::opaque]
pub open spec fn keyword_hit(text: Seq<char>, p: int, first: char) -> Hit {
    if first == 'a' {
        if stands_at(text, p, "ssembly"@) {
            hit("ssembly"@, TokenType::Flow)
        } else if stands_at(text, p, "ddress"@) {
            hit("ddress"@, TokenType::TypeName)
        } else if stands_at(text, p, "bi"@) {
            hit("bi"@, TokenType::Keyword)
        } else {
            miss(text, p)
        }
    } else if first == 'b' {
        if stands_at(text, p, "ytes"@) {
            sized(text, p, "ytes"@, 1, true)
        } else if stands_at(text, p, "reak"@) {
            hit("reak"@, TokenType::Flow)
        } else if stands_at(text, p, "lock"@) {
            hit("lock"@, TokenType::Keyword)
        } else if stands_at(text, p, "ool"@) {
            hit("ool"@, TokenType::TypeName)
        } else {
            miss(text, p)
        }
    } else if first == 'c' {
        if stands_at(text, p, "ontract"@) {
            hit("ontract"@, TokenType::Keyword)
        } else if stands_at(text, p, "onstant"@) {
            hit("onstant"@, TokenType::Keyword)
        } else if stands_at(text, p, "ontinue"@) {
            hit("ontinue"@, TokenType::Flow)
        } else {
            miss(text, p)
        }
    } else if first == 'd' {
        if stands_at(text, p, "elete"@) {
            hit("elete"@, TokenType::Keyword)
        } else {
            miss(text, p)
        }
    } else if first == 'e' {
        if stands_at(text, p, "xperimental"@) {
            hit("xperimental"@, TokenType::Flow)
        } else if stands_at(text, p, "xternal"@) {
            hit("xternal"@, TokenType::Keyword)
        } else if stands_at(text, p, "vent"@) {
            hit("vent"@, TokenType::Fn)
        } else if stands_at(text, p, "lse"@) {
            hit("lse"@, TokenType::Flow)
        } else if stands_at(text, p, "num"@) {
            hit("num"@, TokenType::Keyword)
        } else if stands_at(text, p, "mit"@) {
            hit("mit"@, TokenType::Flow)
        } else {
            miss(text, p)
        }
    } else if first == 'f' {
        if stands_at(text, p, "unction"@) {
            hit("unction"@, TokenType::Fn)
        } else if stands_at(text, p, "inally"@) {
            hit("inally"@, TokenType::Fn)
        } else if stands_at(text, p, "alse"@) {
            hit("alse"@, TokenType::Bool)
        } else if stands_at(text, p, "or"@) {
            hit("or"@, TokenType::Looping)
        } else {
            miss(text, p)
        }
    } else if first == 'i' {
        if stands_at(text, p, "nterface"@) {
            hit("nterface"@, TokenType::Keyword)
        } else if stands_at(text, p, "nternal"@) {
            hit("nternal"@, TokenType::Keyword)
        } else if stands_at(text, p, "mport"@) {
            hit("mport"@, TokenType::TypeDef)
        } else if stands_at(text, p, "nt"@) {
            sized(text, p, "nt"@, 8, false)
        } else if stands_at(text, p, "s"@) {
            hit("s"@, TokenType::Flow)
        } else if stands_at(text, p, "f"@) {
            hit("f"@, TokenType::Flow)
        } else {
            miss(text, p)
        }
    } else if first == 'm' {
        if stands_at(text, p, "odifier"@) {
            hit("odifier"@, TokenType::Fn)
        } else if stands_at(text, p, "apping"@) {
            hit("apping"@, TokenType::Call)
        } else if stands_at(text, p, "emory"@) {
            hit("emory"@, TokenType::Keyword)
        } else if stands_at(text, p, "sg"@) {
            hit("sg"@, TokenType::Keyword)
        } else {
            miss(text, p)
        }
    } else if first == 'n' {
        if stands_at(text, p, "ew"@) {
            hit("ew"@, TokenType::Keyword)
        } else {
            miss(text, p)
        }
    } else if first == 'p' {
        if stands_at(text, p, "rivate"@) {
            hit("rivate"@, TokenType::Keyword)
        } else if stands_at(text, p, "ublic"@) {
            hit("ublic"@, TokenType::Keyword)
        } else if stands_at(text, p, "ragma"@) {
            hit("ragma"@, TokenType::Keyword)
        } else if stands_at(text, p, "ure"@) {
            hit("ure"@, TokenType::Call)
        } else {
            miss(text, p)
        }
    } else if first == 'r' {
        if stands_at(text, p, "eturns"@) {
            hit("eturns"@, TokenType::Flow)
        } else if stands_at(text, p, "eturn"@) {
            hit("eturn"@, TokenType::Flow)
        } else {
            miss(text, p)
        }
    } else if first == 's' {
        if stands_at(text, p, "olidity"@) {
            hit("olidity"@, TokenType::Flow)
        } else if stands_at(text, p, "truct"@) {
            hit("truct"@, TokenType::TypeName)
        } else if stands_at(text, p, "tring"@) {
            hit("tring"@, TokenType::TypeName)
        } else if stands_at(text, p, "uper"@) {
            hit("uper"@, TokenType::Keyword)
        } else {
            miss(text, p)
        }
    } else if first == 't' {
        if stands_at(text, p, "ypeof"@) {
            hit("ypeof"@, TokenType::Keyword)
        } else if stands_at(text, p, "hrow"@) {
            hit("hrow"@, TokenType::Flow)
        } else if stands_at(text, p, "his"@) {
            hit("his"@, TokenType::Keyword)
        } else if stands_at(text, p, "rue"@) {
            hit("rue"@, TokenType::Bool)
        } else if stands_at(text, p, "ry"@) {
            hit("ry"@, TokenType::Keyword)
        } else {
            miss(text, p)
        }
    } else if first == 'u' {
        if stands_at(text, p, "sing"@) {
            hit("sing"@, TokenType::Fn)
        } else if stands_at(text, p, "int"@) {
            sized(text, p, "int"@, 8, false)
        } else {
            miss(text, p)
        }
    } else if first == 'v' {
        if stands_at(text, p, "iew"@) {
            hit("iew"@, TokenType::Call)
        } else {
            miss(text, p)
        }
    } else if first == 'w' {
        if stands_at(text, p, "hile"@) {
            hit("hile"@, TokenType::Looping)
        } else {
            miss(text, p)
        }
    } else {
        miss(text, p)
    }
}

/// The word that begins with the letter at `p`. A keyword counts only as a
/// whole word: where identifier characters follow it, the word is a name.
pub open spec fn word_token(text: Seq<char>, p: int) -> (TokenType, int) {
    let found = keyword_hit(text, p + 1, text[p]);
    let stem_end = p + 1 + found.len;
    let end = run_end(text, stem_end, CharClass::Ident);
    (if end > stem_end {
        name_kind(char_at(text, end))
    } else {
        found.kind
    }, end)
}

/// The end of the escape sequence whose backslash stands at `i`: `\u` takes
/// the hexadecimal digits behind it, any other character but a line break or
/// the end sentinel is taken alone.
pub open spec fn escape_end(text: Seq<char>, i: int) -> int {
    let escaped = char_at(text, i + 1);
    if escaped == 'u' {
        run_end(text, i + 2, CharClass::Hex)
    } else if escaped != '\n' && escaped != '\0' {
        i + 2
    } else {
        i + 1
    }
}

/// The end of the string whose content begins at `i`: behind the first quote
/// that no backslash escapes, or in front of the line break or of the last
/// character of the text, which is the end sentinel, where there is none.
pub open spec fn string_end(text: Seq<char>, i: int, quote: char) -> int
    decreases text.len() - i,
{
    if i < 0 || i >= text.len() - 1 || text[i] == '\n' {
        i
    } else if text[i] == '\\' {
        proof {
            lemma_run_end_bounds(text, i + 2, CharClass::Hex);
        }
        string_end(text, escape_end(text, i), quote)
    } else if text[i] == quote {
        i + 1
    } else {
        string_end(text, i + 1, quote)
    }
}

/// Whether the slash at `i` closes a regular expression: it does unless a
/// backslash stands in front of it that is not itself behind a backslash.
pub open spec fn closes_regex(text: Seq<char>, i: int) -> bool {
    text[i] == '/' && !(char_at(text, i - 2) != '\\' && char_at(text, i - 1) == '\\')
}

/// The end of the regular expression whose content goes on at `i`: behind the
/// flag letters that follow its closing slash, or in front of the line break
/// or of the last character of the text, which is the end sentinel, where
/// there is none.
pub open spec fn regex_end(text: Seq<char>, i: int) -> int
    decreases text.len() - i,
{
    if i < 0 || i >= text.len() - 1 || text[i] == '\n' {
        i
    } else if closes_regex(text, i) {
        run_end(text, i + 1, CharClass::RegexFlag)
    } else {
        regex_end(text, i + 1)
    }
}

/// The end of the number whose first digit stands in front of `i`.
pub open spec fn number_end(text: Seq<char>, i: int) -> int {
    if char_at(text, i) == 'x' {
        run_end(text, i + 1, CharClass::HexNumber)
    } else if char_at(text, i) == 'b' {
        run_end(text, i + 1, CharClass::Binary)
    } else {
        let whole = run_end(text, i, CharClass::Decimal);
        if char_at(text, whole) == '.' {
            run_end(text, whole + 1, CharClass::Decimal)
        } else {
            whole
        }
    }
}

/// Whether a slash behind a token of this kind begins a regular expression.
pub open spec fn regex_may_follow(last: TokenType) -> bool {
    last == TokenType::ParenOpen || last == TokenType::Keyword || last == TokenType::Operator
        || last == TokenType::Delimiter || last == TokenType::Colon || last == TokenType::Looping
}

/// A token of `kind` that ends at `end` and leaves no comment open.
pub open spec fn plain(kind: TokenType, end: int, single: bool) -> Lexed {
    Lexed { kind, end, depth: 0, single }
}

/// The token that begins with the slash at `p`.
pub open spec fn slash_token(text: Seq<char>, p: int, single: bool, last: TokenType) -> Lexed {
    let c1 = char_at(text, p + 1);
    if c1 == '/' {
        Lexed { kind: TokenType::CommentLine, end: p + 2, depth: 1, single: true }
    } else if c1 == '*' {
        Lexed { kind: TokenType::CommentMultiBegin, end: p + 2, depth: 1, single: false }
    } else if regex_may_follow(last) {
        plain(TokenType::Regex, regex_end(text, p + 1), single)
    } else if c1 == '=' {
        plain(TokenType::Operator, p + 2, single)
    } else {
        plain(TokenType::Operator, p + 1, single)
    }
}

/// The token that begins with the punctuation character at `p`.
pub open spec fn punctuation_token(text: Seq<char>, p: int, single: bool) -> Lexed {
    let c = text[p];
    let c1 = char_at(text, p + 1);
    let c2 = char_at(text, p + 2);
    if c == ':' {
        plain(TokenType::Colon, p + 1, single)
    } else if c == '*' {
        if c1 == '=' {
            plain(TokenType::Operator, p + 2, single)
        } else if c1 == '/' {
            plain(TokenType::Unexpected, p + 2, single)
        } else {
            plain(TokenType::Operator, p + 1, single)
        }
    } else if c == '+' {
        plain(TokenType::Operator, if c1 == '=' || c1 == '+' { p + 2 } else { p + 1 }, single)
    } else if c == '-' {
        plain(
            TokenType::Operator,
            if c1 == '>' || c1 == '=' || c1 == '-' { p + 2 } else { p + 1 },
            single,
        )
    } else if c == '=' {
        if c1 == '>' {
            plain(TokenType::Operator, p + 2, single)
        } else if c1 == '=' {
            plain(TokenType::Operator, if c2 == '=' { p + 3 } else { p + 2 }, single)
        } else {
            plain(TokenType::Operator, p + 1, single)
        }
    } else if c == '.' {
        if c1 == '.' {
            plain(TokenType::Splat, p + 2, single)
        } else {
            plain(TokenType::Operator, p + 1, single)
        }
    } else if c == ';' {
        plain(TokenType::Delimiter, if c1 == '.' { p + 2 } else { p + 1 }, single)
    } else if c == '&' {
        plain(TokenType::Operator, if c1 == '&' || c1 == '=' { p + 2 } else { p + 1 }, single)
    } else if c == '|' {
        plain(TokenType::Operator, if c1 == '|' || c1 == '=' { p + 2 } else { p + 1 }, single)
    } else if c == '!' {
        if c1 == '=' {
            plain(TokenType::Operator, if c2 == '=' { p + 3 } else { p + 2 }, single)
        } else {
            plain(TokenType::Operator, p + 1, single)
        }
    } else if c == '<' {
        plain(TokenType::Operator, if c1 == '=' || c1 == '<' { p + 2 } else { p + 1 }, single)
    } else if c == '>' {
        plain(TokenType::Operator, if c1 == '=' || c1 == '>' { p + 2 } else { p + 1 }, single)
    } else if c == ',' {
        plain(TokenType::Delimiter, p + 1, single)
    } else if c == '(' || c == '{' || c == '[' {
        plain(TokenType::ParenOpen, p + 1, single)
    } else if c == ')' || c == '}' || c == ']' {
        plain(TokenType::ParenClose, p + 1, single)
    } else {
        plain(TokenType::Operator, p + 1, single)
    }
}

/// The token that begins at `p` outside a comment. `last` is the kind of the
/// last token before it that is neither whitespace nor a line break. Behind
/// the text there is the end marker; the character `'\0'` is whitespace.
pub open spec fn code_token(text: Seq<char>, p: int, single: bool, last: TokenType) -> Lexed {
    if p < 0 || p >= text.len() {
        plain(TokenType::Eof, p, single)
    } else {
        let c = text[p];
        if c == '\0' {
            plain(TokenType::Whitespace, p + 1, single)
        } else if c == '\n' {
            plain(TokenType::Newline, p + 1, single)
        } else if c == ' ' || c == '\t' {
            plain(TokenType::Whitespace, run_end(text, p + 1, CharClass::Blank), single)
        } else if c == '/' {
            slash_token(text, p, single, last)
        } else if c == '"' || c == '\'' {
            plain(TokenType::String, string_end(text, p + 1, c), single)
        } else if is_digit(c) {
            plain(TokenType::Number, number_end(text, p + 1), single)
        } else if c == '_' || c == '$' {
            let end = run_end(text, p + 1, CharClass::Ident);
            plain(name_kind(char_at(text, end)), end, single)
        } else if is_letter(c) {
            plain(word_token(text, p).0, word_token(text, p).1, single)
        } else {
            punctuation_token(text, p, single)
        }
    }
}

/// The token that begins at `start` inside a comment of nesting `depth`, the
/// scan having come to `i`. Comment text is cut at spaces and line breaks;
/// `*/` closes one level and ends the token when it closes the last; the end
/// sentinel ends the comment.
pub open spec fn comment_token(
    text: Seq<char>,
    start: int,
    i: int,
    depth: nat,
    single: bool,
) -> Lexed
    decreases text.len() - i,
{
    let c = char_at(text, i);
    if c == '\0' {
        Lexed { kind: TokenType::CommentChunk, end: i, depth: 0, single }
    } else if c == '*' {
        if char_at(text, i + 1) == '/' {
            if depth <= 1 {
                Lexed { kind: TokenType::CommentMultiEnd, end: i + 2, depth: 0, single }
            } else {
                comment_token(text, start, i + 2, (depth - 1) as nat, single)
            }
        } else {
            comment_token(text, start, i + 1, depth, single)
        }
    } else if c == '\n' {
        let left = if single {
            0
        } else {
            depth
        };
        if i > start {
            Lexed { kind: TokenType::CommentChunk, end: i, depth: left, single }
        } else {
            Lexed { kind: TokenType::Newline, end: i + 1, depth: left, single }
        }
    } else if c == ' ' {
        if i > start {
            Lexed { kind: TokenType::CommentChunk, end: i, depth, single }
        } else {
            Lexed {
                kind: TokenType::Whitespace,
                end: run_end(text, i + 1, CharClass::Space),
                depth,
                single,
            }
        }
    } else {
        comment_token(text, start, i + 1, depth, single)
    }
}

/// The token that begins at `p`, the tokenizer being inside a comment of
/// nesting `depth`, or outside any where `depth` is 0. The end sentinel ends
/// a comment at once, and the token is then the one that stands there
/// outside a comment.
#[verifier::opaque]
pub open spec fn next_lexed(
    text: Seq<char>,
    p: int,
    depth: nat,
    single: bool,
    last: TokenType,
) -> Lexed {
    if depth > 0 && char_at(text, p) != '\0' {
        comment_token(text, p, p, depth, single)
    } else {
        code_token(text, p, single, last)
    }
}

/// A chunk store: the chunks, the stack of open delimiters, and whether a
/// closing delimiter has come without an open one.
pub struct Store {
    pub chunks: Seq<TokenChunk>,
    pub stack: Seq<usize>,
    pub invalid: bool,
}

/// The store after the text from `p` on has been tokenized into it, the
/// tokenizer starting in the comment state `depth`, `single`. Each token is
/// pushed with the character that follows it; the end marker is the last.
pub open spec fn lex_from(text: Seq<char>, p: int, depth: nat, single: bool, store: Store) -> Store
    decreases text.len() - p,
{
    let lexed = next_lexed(
        text,
        p,
        depth,
        single,
        last_significant(store.chunks, store.chunks.len() as int),
    );
    let after = pushed(
        store.chunks,
        store.stack,
        char_at(text, lexed.end),
        #[verifier::truncate]
        (p as usize),
        #[verifier::truncate]
        (lexed.end as usize),
        lexed.kind,
    );
    let grown = Store {
        chunks: after.chunks,
        stack: after.stack,
        invalid: store.invalid || after.invalid,
    };
    if lexed.kind == TokenType::Eof || p < 0 || lexed.end <= p || lexed.end > text.len() {
        grown
    } else {
        lex_from(text, lexed.end, lexed.depth, lexed.single, grown)
    }
}

/// The store that tokenizing the whole text into an empty store gives.
pub open spec fn tokenized(text: Seq<char>) -> Store {
    lex_from(
        text,
        0,
        0,
        false,
        Store { chunks: Seq::empty(), stack: Seq::empty(), invalid: false },
    )
}

/// A string ends behind its start and inside the text.
pub proof fn lemma_string_end_bounds(text: Seq<char>, i: int, quote: char)
    requires
        0 <= i <= text.len(),
    ensures
        i <= string_end(text, i, quote) <= text.len(),
    decreases text.len() - i,
{
    if i < text.len() - 1 && text[i] != '\n' {
        if text[i] == '\\' {
            lemma_run_end_bounds(text, i + 2, CharClass::Hex);
            lemma_string_end_bounds(text, escape_end(text, i), quote);
        } else if text[i] != quote {
            lemma_string_end_bounds(text, i + 1, quote);
        }
    }
}

/// A regular expression ends behind its start and inside the text.
pub proof fn lemma_regex_end_bounds(text: Seq<char>, i: int)
    requires
        0 <= i <= text.len(),
    ensures
        i <= regex_end(text, i) <= text.len(),
    decreases text.len() - i,
{
    if i < text.len() - 1 && text[i] != '\n' {
        if closes_regex(text, i) {
            lemma_run_end_bounds(text, i + 1, CharClass::RegexFlag);
        } else {
            lemma_regex_end_bounds(text, i + 1);
        }
    }
}

/// `kind` is that of a piece of a string that goes over several tokens.
pub open spec fn string_in_parts(kind: TokenType) -> bool {
    kind == TokenType::StringMultiBegin || kind == TokenType::StringChunk || kind
        == TokenType::StringMultiEnd
}

/// What the keyword table takes lies inside the text, and it never gives the
/// end marker, a line break or a piece of a string.
pub proof fn lemma_keyword_hit_bounds(text: Seq<char>, p: int, first: char)
    requires
        0 <= p <= text.len(),
    ensures
        p + keyword_hit(text, p, first).len <= text.len(),
        keyword_hit(text, p, first).kind != TokenType::Eof,
        keyword_hit(text, p, first).kind != TokenType::Newline,
        !string_in_parts(keyword_hit(text, p, first).kind),
{
    reveal(keyword_hit);
    lemma_run_end_bounds(text, p + "ytes"@.len(), CharClass::Digit);
    lemma_run_end_bounds(text, p + "nt"@.len(), CharClass::Digit);
    lemma_run_end_bounds(text, p + "int"@.len(), CharClass::Digit);
}

/// `c` is a lower case letter of ASCII or a decimal digit: the characters
/// that keywords are written with.
pub open spec fn is_keyword_char(c: char) -> bool {
    'a' <= c <= 'z' || is_digit(c)
}

/// The first `n` characters of `word` are lower case letters of ASCII.
pub open spec fn lower_upto(word: Seq<char>, n: nat) -> bool
    decreases n,
{
    n == 0 || (n <= word.len() && 'a' <= word[n - 1] <= 'z' && lower_upto(word, (n - 1) as nat))
}

/// Where the first `n` characters of a word are lower case letters, each of
/// them is.
pub proof fn lemma_lower_upto(word: Seq<char>, n: nat)
    requires
        lower_upto(word, n),
    ensures
        forall|i: int| 0 <= i < n ==> 'a' <= #[trigger] word[i] <= 'z',
    decreases n,
{
    if n > 0 {
        lemma_lower_upto(word, (n - 1) as nat);
    }
}

/// Where a word of lower case letters stands in a text, the text has lower
/// case letters.
pub proof fn lemma_standing_is_plain(text: Seq<char>, p: int, word: Seq<char>)
    requires
        lower_upto(word, word.len()),
    ensures
        stands_at(text, p, word) ==> forall|i: int|
            p <= i < p + word.len() ==> is_keyword_char(#[trigger] text[i]),
{
    lemma_lower_upto(word, word.len());
    if stands_at(text, p, word) {
        assert forall|i: int| p <= i < p + word.len() implies is_keyword_char(
            #[trigger] text[i],
        ) by {
            assert(text.subrange(p, p + word.len())[i - p] == text[i]);
        }
    }
}

/// Every character of a run belongs to the class of the run.
pub proof fn lemma_run_holds(text: Seq<char>, i: int, class: CharClass)
    ensures
        forall|k: int| i <= k < run_end(text, i, class) ==> class.holds(#[trigger] text[k]),
    decreases text.len() - i,
{
    if 0 <= i < text.len() && class.holds(text[i]) {
        lemma_run_holds(text, i + 1, class);
    }
}

/// What the keyword table takes is written with lower case letters and
/// digits only.
pub proof fn lemma_keyword_hit_chars(text: Seq<char>, p: int, first: char)
    requires
        0 <= p <= text.len(),
    ensures
        forall|i: int|
            p <= i < p + keyword_hit(text, p, first).len ==> is_keyword_char(#[trigger] text[i]),
{
    reveal(keyword_hit);
    reveal_with_fuel(lower_upto, 13);
    reveal_strlit("ssembly");
    lemma_standing_is_plain(text, p, "ssembly"@);
    reveal_strlit("ddress");
    lemma_standing_is_plain(text, p, "ddress"@);
    reveal_strlit("bi");
    lemma_standing_is_plain(text, p, "bi"@);
    reveal_strlit("ytes");
    lemma_standing_is_plain(text, p, "ytes"@);
    reveal_strlit("reak");
    lemma_standing_is_plain(text, p, "reak"@);
    reveal_strlit("lock");
    lemma_standing_is_plain(text, p, "lock"@);
    reveal_strlit("ool");
    lemma_standing_is_plain(text, p, "ool"@);
    reveal_strlit("ontract");
    lemma_standing_is_plain(text, p, "ontract"@);
    reveal_strlit("onstant");
    lemma_standing_is_plain(text, p, "onstant"@);
    reveal_strlit("ontinue");
    lemma_standing_is_plain(text, p, "ontinue"@);
    reveal_strlit("elete");
    lemma_standing_is_plain(text, p, "elete"@);
    reveal_strlit("xperimental");
    lemma_standing_is_plain(text, p, "xperimental"@);
    reveal_strlit("xternal");
    lemma_standing_is_plain(text, p, "xternal"@);
    reveal_strlit("vent");
    lemma_standing_is_plain(text, p, "vent"@);
    reveal_strlit("lse");
    lemma_standing_is_plain(text, p, "lse"@);
    reveal_strlit("num");
    lemma_standing_is_plain(text, p, "num"@);
    reveal_strlit("mit");
    lemma_standing_is_plain(text, p, "mit"@);
    reveal_strlit("unction");
    lemma_standing_is_plain(text, p, "unction"@);
    reveal_strlit("inally");
    lemma_standing_is_plain(text, p, "inally"@);
    reveal_strlit("alse");
    lemma_standing_is_plain(text, p, "alse"@);
    reveal_strlit("or");
    lemma_standing_is_plain(text, p, "or"@);
    reveal_strlit("nterface");
    lemma_standing_is_plain(text, p, "nterface"@);
    reveal_strlit("nternal");
    lemma_standing_is_plain(text, p, "nternal"@);
    reveal_strlit("mport");
    lemma_standing_is_plain(text, p, "mport"@);
    reveal_strlit("nt");
    lemma_standing_is_plain(text, p, "nt"@);
    reveal_strlit("s");
    lemma_standing_is_plain(text, p, "s"@);
    reveal_strlit("f");
    lemma_standing_is_plain(text, p, "f"@);
    reveal_strlit("odifier");
    lemma_standing_is_plain(text, p, "odifier"@);
    reveal_strlit("apping");
    lemma_standing_is_plain(text, p, "apping"@);
    reveal_strlit("emory");
    lemma_standing_is_plain(text, p, "emory"@);
    reveal_strlit("sg");
    lemma_standing_is_plain(text, p, "sg"@);
    reveal_strlit("ew");
    lemma_standing_is_plain(text, p, "ew"@);
    reveal_strlit("rivate");
    lemma_standing_is_plain(text, p, "rivate"@);
    reveal_strlit("ublic");
    lemma_standing_is_plain(text, p, "ublic"@);
    reveal_strlit("ragma");
    lemma_standing_is_plain(text, p, "ragma"@);
    reveal_strlit("ure");
    lemma_standing_is_plain(text, p, "ure"@);
    reveal_strlit("eturns");
    lemma_standing_is_plain(text, p, "eturns"@);
    reveal_strlit("eturn");
    lemma_standing_is_plain(text, p, "eturn"@);
    reveal_strlit("olidity");
    lemma_standing_is_plain(text, p, "olidity"@);
    reveal_strlit("truct");
    lemma_standing_is_plain(text, p, "truct"@);
    reveal_strlit("tring");
    lemma_standing_is_plain(text, p, "tring"@);
    reveal_strlit("uper");
    lemma_standing_is_plain(text, p, "uper"@);
    reveal_strlit("ypeof");
    lemma_standing_is_plain(text, p, "ypeof"@);
    reveal_strlit("hrow");
    lemma_standing_is_plain(text, p, "hrow"@);
    reveal_strlit("his");
    lemma_standing_is_plain(text, p, "his"@);
    reveal_strlit("rue");
    lemma_standing_is_plain(text, p, "rue"@);
    reveal_strlit("ry");
    lemma_standing_is_plain(text, p, "ry"@);
    reveal_strlit("sing");
    lemma_standing_is_plain(text, p, "sing"@);
    reveal_strlit("int");
    lemma_standing_is_plain(text, p, "int"@);
    reveal_strlit("iew");
    lemma_standing_is_plain(text, p, "iew"@);
    reveal_strlit("hile");
    lemma_standing_is_plain(text, p, "hile"@);
    lemma_run_holds(text, p + "ytes"@.len(), CharClass::Digit);
    lemma_run_holds(text, p + "nt"@.len(), CharClass::Digit);
    lemma_run_holds(text, p + "int"@.len(), CharClass::Digit);
    lemma_run_end_bounds(text, p + "ytes"@.len(), CharClass::Digit);
    lemma_run_end_bounds(text, p + "nt"@.len(), CharClass::Digit);
    lemma_run_end_bounds(text, p + "int"@.len(), CharClass::Digit);
}

/// A run that begins inside another run of the same class ends where that
/// one ends.
pub proof fn lemma_run_goes_on(text: Seq<char>, i: int, j: int, class: CharClass)
    requires
        0 <= i <= j <= text.len(),
        forall|k: int| i <= k < j ==> class.holds(#[trigger] text[k]),
    ensures
        run_end(text, i, class) == run_end(text, j, class),
    decreases j - i,
{
    if i < j {
        assert(class.holds(text[i]));
        lemma_run_goes_on(text, i + 1, j, class);
    }
}

/// A word is the longest run of identifier characters: whatever the keyword
/// table takes of it, the token ends where the identifier ends. So a keyword
/// is never cut off the front of a longer name.
pub proof fn lemma_word_is_whole(text: Seq<char>, p: int)
    requires
        0 <= p < text.len(),
    ensures
        word_token(text, p).1 == run_end(text, p + 1, CharClass::Ident),
        word_token(text, p).1 > p + 1 + keyword_hit(text, p + 1, text[p]).len ==> word_token(
            text,
            p,
        ).0 == name_kind(char_at(text, word_token(text, p).1)),
{
    let taken = keyword_hit(text, p + 1, text[p]).len;
    lemma_keyword_hit_bounds(text, p + 1, text[p]);
    lemma_keyword_hit_chars(text, p + 1, text[p]);
    lemma_run_goes_on(text, p + 1, p + 1 + taken, CharClass::Ident);
}

/// A token inside a comment has at least one character, ends inside the text
/// and is not the end marker.
pub proof fn lemma_comment_token_bounds(
    text: Seq<char>,
    start: int,
    i: int,
    depth: nat,
    single: bool,
)
    requires
        0 <= start <= i <= text.len(),
        i == start ==> char_at(text, i) != '\0',
    ensures
        start < comment_token(text, start, i, depth, single).end <= text.len(),
        comment_token(text, start, i, depth, single).kind != TokenType::Eof,
    decreases text.len() - i,
{
    let c = char_at(text, i);
    if c == '\0' {
    } else if c == '*' {
        if char_at(text, i + 1) == '/' {
            if depth > 1 {
                lemma_comment_token_bounds(text, start, i + 2, (depth - 1) as nat, single);
            }
        } else {
            lemma_comment_token_bounds(text, start, i + 1, depth, single);
        }
    } else if c == '\n' {
    } else if c == ' ' {
        lemma_run_end_bounds(text, i + 1, CharClass::Space);
    } else {
        lemma_comment_token_bounds(text, start, i + 1, depth, single);
    }
}

/// A run in a text that ends with the end sentinel stops in front of it.
pub proof fn lemma_run_stops(text: Seq<char>, i: int, class: CharClass)
    requires
        text.len() > 0,
        text.last() == '\0',
    ensures
        i <= text.len() - 1 ==> run_end(text, i, class) <= text.len() - 1,
    decreases text.len() - i,
{
    if 0 <= i < text.len() && class.holds(text[i]) {
        lemma_run_stops(text, i + 1, class);
    }
}

/// A string in a text that ends with the end sentinel stops in front of it.
pub proof fn lemma_string_stops(text: Seq<char>, i: int, quote: char)
    requires
        text.len() > 0,
        text.last() == '\0',
        0 <= i <= text.len() - 1,
    ensures
        string_end(text, i, quote) <= text.len() - 1,
    decreases text.len() - i,
{
    if i < text.len() - 1 && text[i] != '\n' {
        if text[i] == '\\' {
            lemma_run_end_bounds(text, i + 2, CharClass::Hex);
            lemma_run_stops(text, i + 2, CharClass::Hex);
            lemma_string_stops(text, escape_end(text, i), quote);
        } else if text[i] != quote {
            lemma_string_stops(text, i + 1, quote);
        }
    }
}

/// A regular expression in a text that ends with the end sentinel stops in
/// front of it.
pub proof fn lemma_regex_stops(text: Seq<char>, i: int)
    requires
        text.len() > 0,
        text.last() == '\0',
        0 <= i <= text.len() - 1,
    ensures
        regex_end(text, i) <= text.len() - 1,
    decreases text.len() - i,
{
    if i < text.len() - 1 && text[i] != '\n' {
        if closes_regex(text, i) {
            lemma_run_stops(text, i + 1, CharClass::RegexFlag);
        } else {
            lemma_regex_stops(text, i + 1);
        }
    }
}

/// A token inside a comment, in a text that ends with the end sentinel,
/// stops in front of it.
pub proof fn lemma_comment_token_stops(
    text: Seq<char>,
    start: int,
    i: int,
    depth: nat,
    single: bool,
)
    requires
        text.len() > 0,
        text.last() == '\0',
        0 <= start <= i <= text.len() - 1,
    ensures
        comment_token(text, start, i, depth, single).end <= text.len() - 1,
    decreases text.len() - i,
{
    let c = char_at(text, i);
    if c == '\0' {
    } else if c == '*' {
        if char_at(text, i + 1) == '/' {
            if depth > 1 {
                lemma_comment_token_stops(text, start, i + 2, (depth - 1) as nat, single);
            }
        } else {
            lemma_comment_token_stops(text, start, i + 1, depth, single);
        }
    } else if c == '\n' {
    } else if c == ' ' {
        lemma_run_stops(text, i + 1, CharClass::Space);
    } else {
        lemma_comment_token_stops(text, start, i + 1, depth, single);
    }
}

/// The end sentinel is a token of its own: in a text that ends with it, a
/// token that begins in front of it stops in front of it, and the token at
/// its place is whitespace of that one character. So the tokens of every
/// document end with that whitespace.
pub proof fn lemma_sentinel_is_alone(
    text: Seq<char>,
    p: int,
    depth: nat,
    single: bool,
    last: TokenType,
)
    requires
        text.len() > 0,
        text.last() == '\0',
        0 <= p <= text.len() - 1,
    ensures
        ({
            let lexed = next_lexed(text, p, depth, single, last);
            &&& p < text.len() - 1 ==> lexed.end <= text.len() - 1
            &&& p == text.len() - 1 ==> lexed.kind == TokenType::Whitespace && lexed.end
                == text.len() && lexed.depth == 0
        }),
{
    reveal(next_lexed);
    if p < text.len() - 1 {
        if depth > 0 && char_at(text, p) != '\0' {
            lemma_comment_token_stops(text, p, p, depth, single);
        } else {
            let c = text[p];
            lemma_run_stops(text, p + 1, CharClass::Blank);
            lemma_run_stops(text, p + 1, CharClass::Ident);
            lemma_run_stops(text, p + 1, CharClass::Decimal);
            lemma_run_stops(text, p + 2, CharClass::HexNumber);
            lemma_run_stops(text, p + 2, CharClass::Binary);
            lemma_run_end_bounds(text, p + 1, CharClass::Decimal);
            lemma_run_stops(text, run_end(text, p + 1, CharClass::Decimal) + 1, CharClass::Decimal);
            lemma_string_stops(text, p + 1, c);
            lemma_regex_stops(text, p + 1);
            lemma_keyword_hit_bounds(text, p + 1, c);
            lemma_keyword_hit_chars(text, p + 1, c);
            let taken = keyword_hit(text, p + 1, c).len;
            if taken > 0 && p + 1 + taken == text.len() {
                assert(is_keyword_char(text[text.len() - 1]));
            }
            lemma_run_stops(text, p + 1 + taken, CharClass::Ident);
        }
    }
}

/// The text has no line break from `from` up to `to`.
pub open spec fn no_break(text: Seq<char>, from: int, to: int) -> bool {
    forall|i: int| from <= i < to && 0 <= i < text.len() ==> #[trigger] text[i] != '\n'
}

/// A run has no line break in it.
pub proof fn lemma_run_no_break(text: Seq<char>, i: int, class: CharClass)
    ensures
        no_break(text, i, run_end(text, i, class)),
{
    lemma_run_holds(text, i, class);
}

/// A string has no line break in it.
pub proof fn lemma_string_no_break(text: Seq<char>, i: int, quote: char)
    requires
        0 <= i,
    ensures
        no_break(text, i, string_end(text, i, quote)),
    decreases text.len() - i,
{
    if i < text.len() - 1 && text[i] != '\n' {
        if text[i] == '\\' {
            lemma_run_end_bounds(text, i + 2, CharClass::Hex);
            lemma_run_no_break(text, i + 2, CharClass::Hex);
            lemma_string_no_break(text, escape_end(text, i), quote);
        } else if text[i] != quote {
            lemma_string_no_break(text, i + 1, quote);
        }
    }
}

/// A regular expression has no line break in it.
pub proof fn lemma_regex_no_break(text: Seq<char>, i: int)
    requires
        0 <= i,
    ensures
        no_break(text, i, regex_end(text, i)),
    decreases text.len() - i,
{
    if i < text.len() - 1 && text[i] != '\n' {
        if closes_regex(text, i) {
            lemma_run_no_break(text, i + 1, CharClass::RegexFlag);
        } else {
            lemma_regex_no_break(text, i + 1);
        }
    }
}

/// A token inside a comment is a line break and nothing else, or has no line
/// break in it.
pub proof fn lemma_comment_token_breaks_alone(
    text: Seq<char>,
    start: int,
    i: int,
    depth: nat,
    single: bool,
)
    requires
        0 <= start <= i <= text.len(),
        no_break(text, start, i),
    ensures
        ({
            let lexed = comment_token(text, start, i, depth, single);
            if lexed.kind == TokenType::Newline {
                start < text.len() && text[start] == '\n' && lexed.end == start + 1
            } else {
                no_break(text, start, lexed.end)
            }
        }),
    decreases text.len() - i,
{
    let c = char_at(text, i);
    if c == '\0' {
    } else if c == '*' {
        if char_at(text, i + 1) == '/' {
            if depth > 1 {
                lemma_comment_token_breaks_alone(text, start, i + 2, (depth - 1) as nat, single);
            }
        } else {
            lemma_comment_token_breaks_alone(text, start, i + 1, depth, single);
        }
    } else if c == '\n' {
    } else if c == ' ' {
        lemma_run_no_break(text, i + 1, CharClass::Space);
    } else {
        lemma_comment_token_breaks_alone(text, start, i + 1, depth, single);
    }
}

/// No token but a line break holds a line break, and a line break holds
/// nothing else.
pub proof fn lemma_token_breaks_alone(
    text: Seq<char>,
    p: int,
    depth: nat,
    single: bool,
    last: TokenType,
)
    requires
        0 <= p <= text.len(),
    ensures
        ({
            let lexed = next_lexed(text, p, depth, single, last);
            if lexed.kind == TokenType::Newline {
                p < text.len() && text[p] == '\n' && lexed.end == p + 1
            } else {
                no_break(text, p, lexed.end)
            }
        }),
{
    reveal(next_lexed);
    if depth > 0 && char_at(text, p) != '\0' {
        lemma_comment_token_breaks_alone(text, p, p, depth, single);
    } else if p < text.len() {
        let c = text[p];
        lemma_run_no_break(text, p + 1, CharClass::Blank);
        lemma_run_no_break(text, p + 1, CharClass::Ident);
        lemma_run_no_break(text, p + 1, CharClass::Decimal);
        lemma_run_no_break(text, p + 2, CharClass::HexNumber);
        lemma_run_no_break(text, p + 2, CharClass::Binary);
        lemma_run_no_break(text, run_end(text, p + 1, CharClass::Decimal) + 1, CharClass::Decimal);
        lemma_string_no_break(text, p + 1, c);
        lemma_regex_no_break(text, p + 1);
        lemma_keyword_hit_bounds(text, p + 1, c);
        lemma_keyword_hit_chars(text, p + 1, c);
        lemma_run_no_break(text, p + 1 + keyword_hit(text, p + 1, c).len, CharClass::Ident);
    }
}

/// A token inside a comment is a piece of the comment, its closer,
/// whitespace or a line break.
pub proof fn lemma_comment_token_kind(
    text: Seq<char>,
    start: int,
    i: int,
    depth: nat,
    single: bool,
)
    requires
        0 <= i <= text.len(),
    ensures
        ({
            let kind = comment_token(text, start, i, depth, single).kind;
            kind == TokenType::CommentChunk || kind == TokenType::CommentMultiEnd || kind
                == TokenType::Whitespace || kind == TokenType::Newline
        }),
    decreases text.len() - i,
{
    let c = char_at(text, i);
    if c == '\0' {
    } else if c == '*' {
        if char_at(text, i + 1) == '/' {
            if depth > 1 {
                lemma_comment_token_kind(text, start, i + 2, (depth - 1) as nat, single);
            }
        } else {
            lemma_comment_token_kind(text, start, i + 1, depth, single);
        }
    } else if c == '\n' {
    } else if c == ' ' {
    } else {
        lemma_comment_token_kind(text, start, i + 1, depth, single);
    }
}

/// The grammar has no string that goes over several tokens: a string is one
/// token, however far it runs.
pub proof fn lemma_token_is_no_string_part(
    text: Seq<char>,
    p: int,
    depth: nat,
    single: bool,
    last: TokenType,
)
    requires
        0 <= p <= text.len(),
    ensures
        !string_in_parts(next_lexed(text, p, depth, single, last).kind),
{
    reveal(next_lexed);
    if depth > 0 && char_at(text, p) != '\0' {
        lemma_comment_token_kind(text, p, p, depth, single);
    } else if p < text.len() {
        lemma_keyword_hit_bounds(text, p + 1, text[p]);
    }
}

/// Tokenizing goes forward and comes to an end: at the end of the text the
/// grammar gives the end marker, which takes nothing; anywhere else it gives
/// a token of another kind, which has at least one character and ends inside
/// the text.
pub proof fn lemma_token_extent(text: Seq<char>, p: int, depth: nat, single: bool, last: TokenType)
    requires
        0 <= p <= text.len(),
    ensures
        ({
            let lexed = next_lexed(text, p, depth, single, last);
            &&& lexed.kind == TokenType::Eof <==> p == text.len()
            &&& lexed.kind == TokenType::Eof ==> lexed.end == p && lexed.depth == 0
            &&& lexed.kind != TokenType::Eof ==> p < lexed.end <= text.len()
        }),
{
    reveal(next_lexed);
    if depth > 0 && char_at(text, p) != '\0' {
        lemma_comment_token_bounds(text, p, p, depth, single);
    } else if p < text.len() {
        let c = text[p];
        lemma_run_end_bounds(text, p + 1, CharClass::Blank);
        lemma_run_end_bounds(text, p + 1, CharClass::Ident);
        lemma_run_end_bounds(text, p + 1, CharClass::HexNumber);
        lemma_run_end_bounds(text, p + 1, CharClass::Binary);
        lemma_run_end_bounds(text, p + 1, CharClass::Decimal);
        lemma_run_end_bounds(text, p + 2, CharClass::HexNumber);
        lemma_run_end_bounds(text, p + 2, CharClass::Binary);
        lemma_run_end_bounds(
            text,
            run_end(text, p + 1, CharClass::Decimal) + 1,
            CharClass::Decimal,
        );
        lemma_string_end_bounds(text, p + 1, c);
        lemma_regex_end_bounds(text, p + 1);
        lemma_keyword_hit_bounds(text, p + 1, c);
        lemma_run_end_bounds(text, p + 1 + keyword_hit(text, p + 1, c).len, CharClass::Ident);
    }
}

} // verus!
