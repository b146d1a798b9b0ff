//! The formatter: one pass over the token chunks of a document that writes
//! the text anew, with its spacing and indentation put in order.

use vstd::prelude::*;
use vstd::slice::slice_subrange;
use crate::format::{
    chunk_char,
    chunk_text,
    regex_closed,
    runs_to_line_end,
    string_closed,
    ends_in_space,
    extended,
    indented,
    spaces,
    kind_at,
    spaced,
    stripped,
    with_new_line,
    FormatOutput,
    TokenParser,
};
use crate::solgrammar::{
    lemma_token_breaks_alone,
    lemma_token_extent,
    lemma_token_is_no_string_part,
    string_in_parts,
    lex_from,
    next_lexed,
    tokenized,
    Store,
};
use crate::textbuffer::TextBuffer;
use crate::soltokenizer::SOLTokenizer;
use crate::cursor::char_at;
use crate::token::{
    contiguous,
    ends_with_eof,
    formattable,
    last_significant,
    lemma_push_appends,
    lemma_push_keeps_layout,
    pushed,
    stack_in_bounds,
    lemma_chunk_ends_in_text,
    tokens_nonempty,
    TokenChunk,
    TokenType,
};

verus! {

/// The number of spaces that one level of nesting indents by.
pub const INDENT_STEP: usize = 4;

/// The choices that a dialect makes for the spacing around braces.
#[derive(Clone, Copy, Debug, PartialEq, Eq, Structural)]
pub struct FormatPolicy {
    /// Whether a space is put inside the braces of a group that stays on one
    /// line.
    pub extra_spacey: bool,
    /// Whether a space is put in front of an opening brace.
    pub pre_spacey: bool,
}

/// One level of nesting in a formatting pass.
#[derive(Clone, Copy, Debug, PartialEq, Eq, Structural)]
pub struct ParenStack {
    /// Whether the group is laid out over several lines.
    pub expecting_newlines: bool,
    /// The indentation of the line that the group was opened on.
    pub expected_indent: usize,
}

/// One level of nesting, as the rules see it.
pub struct Frame {
    pub expecting_newlines: bool,
    pub expected_indent: nat,
}

/// The state of a formatting pass between two tokens.
pub struct FormatState {
    /// The lines written so far; the last one is being written.
    pub lines: Seq<Seq<char>>,
    /// The open groups, the innermost last. The first entry stands for the
    /// document itself and is never taken off.
    pub stack: Seq<Frame>,
    /// Whether nothing but indentation has been written on the last line.
    pub first_on_line: bool,
    /// Whether the last significant token opened a group.
    pub first_after_open: bool,
    /// The indentation that a new line begins with.
    pub expected_indent: nat,
    /// Whether an operator that comes now stands in front of its operand.
    pub is_unary_operator: bool,
    pub in_multline_comment: bool,
    pub in_singleline_comment: bool,
    pub in_multline_string: bool,
}

/// What the rules look at when they come to a token.
pub struct Seen {
    pub kind: TokenType,
    pub next_kind: TokenType,
    /// The character that stands for the token.
    pub c: char,
    /// The text of the token.
    pub text: Seq<char>,
    /// Whether a significant token follows before the next line break.
    pub more_on_line: bool,
    /// The kind of the last token before it that is neither whitespace nor a
    /// line break.
    pub last_kind: TokenType,
    /// Whether the token right before it runs to the end of its line: a
    /// string or a regular expression without its closing mark.
    pub prev_open: bool,
}

/// Whether one of the chunks from `from` on, up to the next line break, is
/// neither whitespace nor a line break.
pub open spec fn more_on_line(tokens: Seq<TokenChunk>, from: int) -> bool
    decreases tokens.len() - from,
{
    if from < 0 || from >= tokens.len() || tokens[from].token_type == TokenType::Newline {
        false
    } else if !tokens[from].token_type.ignorable() {
        true
    } else {
        more_on_line(tokens, from + 1)
    }
}

/// What the rules see at chunk `i`.
pub open spec fn seen(flat: Seq<char>, tokens: Seq<TokenChunk>, i: int) -> Seen {
    Seen {
        kind: tokens[i].token_type,
        next_kind: kind_at(tokens, i + 1),
        c: chunk_char(flat, tokens[i]),
        text: chunk_text(flat, tokens[i]),
        more_on_line: more_on_line(tokens, i + 1),
        last_kind: last_significant(tokens, i),
        prev_open: 0 < i <= tokens.len() && runs_to_line_end(
            tokens[i - 1].token_type,
            chunk_text(flat, tokens[i - 1]),
        ),
    }
}

/// The state in front of the first token: one empty line, and the document as
/// a group that is laid out over several lines.
pub open spec fn initial_state() -> FormatState {
    FormatState {
        lines: seq![Seq::<char>::empty()],
        stack: seq![Frame { expecting_newlines: true, expected_indent: 0 }],
        first_on_line: true,
        first_after_open: false,
        expected_indent: 0,
        is_unary_operator: true,
        in_multline_comment: false,
        in_singleline_comment: false,
        in_multline_string: false,
    }
}

/// Begins the line, if nothing stands on it yet, with its indentation.
pub open spec fn line_begun(st: FormatState) -> FormatState {
    if st.first_on_line {
        FormatState {
            lines: indented(st.lines, st.expected_indent),
            first_on_line: false,
            ..st
        }
    } else {
        st
    }
}

/// Appends the text of the token to the last line.
pub open spec fn written(st: FormatState, t: Seen) -> FormatState {
    FormatState { lines: extended(st.lines, t.text), ..st }
}

/// Whether whitespace between tokens of these kinds becomes a space, `prev`
/// being the last token before it that is neither whitespace nor a line
/// break: it does unless that token is one that nothing is set apart from.
/// Behind an operator it does only where the two tokens would otherwise run
/// into one: in front of another operator, of a regular expression and of a
/// comment opener.
pub open spec fn keeps_apart(prev: TokenType, next: TokenType) -> bool {
    if prev == TokenType::Operator {
        next == TokenType::Operator || next == TokenType::Regex || next == TokenType::Splat
            || next == TokenType::CommentMultiBegin
    } else {
        prev != TokenType::ParenOpen && prev != TokenType::Namespace && prev
            != TokenType::Delimiter
    }
}

/// The state with the comment closed that a character `'\0'` ends: that
/// character is whitespace, and it ends a comment as the end of the text does.
pub open spec fn comment_ended(st: FormatState, t: Seen) -> FormatState {
    if begins_with_nul(t.text) {
        FormatState { in_singleline_comment: false, in_multline_comment: false, ..st }
    } else {
        st
    }
}

/// Whitespace at the end of the text, where the end sentinel stands, is left
/// out. A character `'\0'` in the text is kept as it is, and so is other
/// whitespace inside comments and strings. Elsewhere whitespace becomes one
/// space where it stands between two tokens on a line that are kept apart.
pub open spec fn on_whitespace(st: FormatState, t: Seen) -> FormatState {
    let st = comment_ended(st, t);
    if t.next_kind == TokenType::Eof {
        st
    } else if begins_with_nul(t.text) {
        on_piece(st, t)
    } else if st.in_singleline_comment || st.in_multline_comment || st.in_multline_string {
        written(st, t)
    } else if !st.first_on_line && t.next_kind != TokenType::Newline && keeps_apart(
        t.last_kind,
        t.next_kind,
    ) {
        FormatState { lines: spaced(st.lines), ..st }
    } else {
        st
    }
}

/// The innermost group, marked as laid out over several lines.
pub open spec fn top_expecting(stack: Seq<Frame>) -> Seq<Frame> {
    stack.update(stack.len() - 1, Frame { expecting_newlines: true, ..stack.last() })
}

/// Whether the space at the end of the line stays when a line break is left
/// out: it does where it follows a separator, an operator or a colon.
pub open spec fn keeps_space(st: FormatState, t: Seen) -> bool {
    ends_in_space(st.lines) && (t.last_kind == TokenType::Delimiter || t.last_kind
        == TokenType::Operator || t.last_kind == TokenType::Colon)
}

/// Whether a line break that is left out stands for a space: it does where
/// the next token follows it at once and whitespace would keep the two
/// tokens around it apart.
pub open spec fn stands_for_space(st: FormatState, t: Seen) -> bool {
    !st.first_on_line && t.next_kind != TokenType::Whitespace && t.next_kind
        != TokenType::Newline && t.next_kind != TokenType::Eof && keeps_apart(
        t.last_kind,
        t.next_kind,
    )
}

/// Inside a comment or a string that goes over several lines a line break
/// is written as it is, and nothing else changes. Elsewhere a line break
/// ends a comment that ends with its line, and that line is left as it is,
/// as is a line that a string or a regular expression runs to the end of,
/// having no closing mark. Where the break is written, an empty line gets its
/// indentation and any other line loses the space at its end. Right behind
/// the opener of a group, the break makes the group one that is laid out over
/// several lines, indented one step deeper. The break is written inside such
/// a group, behind a comment that ends with its line and behind a string or a
/// regular expression that runs to the end of its line. Inside a group that
/// stays on one line any other break is left out; the space that follows a
/// separator, an operator or a colon stays, and the break counts as
/// whitespace between the tokens around it.
pub open spec fn on_newline(st: FormatState, t: Seen) -> FormatState {
    if st.in_multline_comment || st.in_multline_string {
        FormatState { lines: with_new_line(st.lines), first_on_line: true, ..st }
    } else {
        let stack = if st.first_after_open {
            top_expecting(st.stack)
        } else {
            st.stack
        };
        let expected_indent = if st.first_after_open {
            st.expected_indent + INDENT_STEP as nat
        } else {
            st.expected_indent
        };
        if stack.last().expecting_newlines || st.in_singleline_comment || t.prev_open {
            FormatState {
                lines: with_new_line(
                    if st.first_on_line {
                        indented(st.lines, st.expected_indent)
                    } else if st.in_singleline_comment || t.prev_open {
                        st.lines
                    } else {
                        stripped(st.lines)
                    },
                ),
                stack,
                expected_indent,
                first_after_open: false,
                first_on_line: true,
                in_singleline_comment: false,
                ..st
            }
        } else if st.first_on_line {
            FormatState { stack, expected_indent, ..st }
        } else {
            FormatState {
                lines: if keeps_space(st, t) || stands_for_space(st, t) {
                    spaced(stripped(st.lines))
                } else {
                    stripped(st.lines)
                },
                stack,
                expected_indent,
                ..st
            }
        }
    }
}

/// Whether an opening brace is set apart from a token of this kind before
/// it: it is not from an opener, and not from a colon, an operator or a
/// separator, which see to the space behind them themselves.
pub open spec fn sets_brace_apart(last: TokenType) -> bool {
    last != TokenType::ParenOpen && last != TokenType::Colon && last != TokenType::Operator
        && last != TokenType::Delimiter && last != TokenType::Namespace
}

/// The lines with the space that goes in front of an opening delimiter.
pub open spec fn open_spaced(policy: FormatPolicy, st: FormatState, t: Seen) -> Seq<Seq<char>> {
    let lines = if st.first_on_line {
        indented(st.lines, st.expected_indent)
    } else {
        st.lines
    };
    let lines = if t.c == '(' && (t.last_kind == TokenType::Flow || t.last_kind
        == TokenType::Looping || t.last_kind == TokenType::Keyword) {
        spaced(lines)
    } else {
        lines
    };
    if policy.pre_spacey && t.c == '{' && !st.first_on_line {
        if sets_brace_apart(t.last_kind) {
            spaced(lines)
        } else {
            lines
        }
    } else if !policy.pre_spacey {
        stripped(lines)
    } else {
        lines
    }
}

/// An opening delimiter begins a group that stays on one line until a line
/// break follows the delimiter at once.
pub open spec fn on_paren_open(policy: FormatPolicy, st: FormatState, t: Seen) -> FormatState {
    let lines = extended(open_spaced(policy, st, t), t.text);
    FormatState {
        lines: if policy.extra_spacey && t.c == '{' && t.next_kind != TokenType::Newline {
            spaced(lines)
        } else {
            lines
        },
        stack: st.stack.push(
            Frame { expecting_newlines: false, expected_indent: st.expected_indent },
        ),
        first_after_open: true,
        is_unary_operator: true,
        first_on_line: false,
        ..st
    }
}

/// A closing delimiter ends the innermost group and goes back to its
/// indentation. It stands on a line of its own where the group is laid out
/// over several lines.
pub open spec fn on_paren_close(policy: FormatPolicy, st: FormatState, t: Seen) -> FormatState {
    let expecting = st.stack.last().expecting_newlines;
    let lines = stripped(st.lines);
    let lines = if policy.extra_spacey && t.c == '}' && !expecting {
        spaced(lines)
    } else {
        lines
    };
    let breaks = !st.first_on_line && expecting;
    let lines = if breaks {
        with_new_line(lines)
    } else {
        lines
    };
    let begins = st.first_on_line || breaks;
    let expected_indent = if st.stack.len() > 1 {
        st.stack.last().expected_indent
    } else {
        0
    };
    let lines = if begins {
        indented(lines, expected_indent)
    } else {
        lines
    };
    FormatState {
        lines: extended(lines, t.text),
        stack: if st.stack.len() > 1 {
            st.stack.drop_last()
        } else {
            st.stack
        },
        expected_indent,
        first_after_open: false,
        first_on_line: false,
        is_unary_operator: t.c == '}',
        ..st
    }
}

/// A separator closes up to what stands before it. Inside a group that is
/// laid out over several lines it ends the line if more follows on it; inside
/// a group that stays on one line a space follows it.
pub open spec fn on_delimiter(st: FormatState, t: Seen) -> FormatState {
    let lines = if st.first_on_line {
        indented(st.lines, st.expected_indent)
    } else {
        stripped(st.lines)
    };
    let lines = extended(lines, t.text);
    if st.stack.last().expecting_newlines {
        if t.next_kind != TokenType::Newline && t.more_on_line {
            FormatState {
                lines: with_new_line(lines),
                first_on_line: true,
                is_unary_operator: true,
                ..st
            }
        } else {
            FormatState { lines, first_on_line: false, is_unary_operator: true, ..st }
        }
    } else {
        FormatState { lines: spaced(lines), first_on_line: false, is_unary_operator: true, ..st }
    }
}

/// Whether the operator is written close to what follows it: a sign or a
/// reference in front of its operand, a dot, or a negation.
pub open spec fn binds_tight(st: FormatState, t: Seen) -> bool {
    (st.is_unary_operator && (t.c == '-' || t.c == '*' || t.c == '&')) || t.c == '.' || t.c == '!'
}

/// An operator that begins a line is indented one step deeper when it goes on
/// with the line before. An operator between two operands has a space on
/// either side, but none at the end of a line; `?` closes up to what stands
/// before it.
pub open spec fn on_operator(st: FormatState, t: Seen) -> FormatState {
    let lines = if st.first_on_line {
        indented(
            st.lines,
            if st.is_unary_operator {
                st.expected_indent
            } else {
                st.expected_indent + INDENT_STEP as nat
            },
        )
    } else {
        st.lines
    };
    let lines = if binds_tight(st, t) {
        extended(lines, t.text)
    } else {
        let lines = extended(
            if t.c == '?' {
                stripped(lines)
            } else {
                spaced(lines)
            },
            t.text,
        );
        if t.next_kind != TokenType::Newline || !st.stack.last().expecting_newlines {
            spaced(lines)
        } else {
            lines
        }
    };
    FormatState { lines, first_on_line: false, is_unary_operator: true, ..st }
}

/// A colon begins its line with the indentation, or closes up to what
/// stands before it. A space follows it, but none at the end of a line. Where
/// whitespace follows, the space is left to it.
pub open spec fn on_colon(st: FormatState, t: Seen) -> FormatState {
    let lines = extended(
        if st.first_on_line {
            indented(st.lines, st.expected_indent)
        } else {
            stripped(st.lines)
        },
        t.text,
    );
    FormatState {
        lines: if t.next_kind != TokenType::Whitespace && (t.next_kind != TokenType::Newline
            || !st.stack.last().expecting_newlines) {
            spaced(lines)
        } else {
            lines
        },
        first_on_line: false,
        is_unary_operator: true,
        ..st
    }
}

/// A word: it begins the line if nothing stands on it yet, and is written as
/// it is. `unary` says whether an operator behind it stands in front of its
/// operand.
pub open spec fn on_word(st: FormatState, t: Seen, unary: bool) -> FormatState {
    written(line_begun(FormatState { is_unary_operator: unary, first_after_open: false, ..st }), t)
}

/// A piece of a comment or of a string that goes over several lines: it is
/// written as it is.
pub open spec fn on_piece(st: FormatState, t: Seen) -> FormatState {
    written(FormatState { first_on_line: false, ..st }, t)
}

/// The state after the token that `t` shows.
pub open spec fn step(policy: FormatPolicy, st: FormatState, t: Seen) -> FormatState {
    match t.kind {
        TokenType::Whitespace => on_whitespace(st, t),
        TokenType::Newline => on_newline(st, t),
        TokenType::Eof => st,
        TokenType::ParenOpen => on_paren_open(policy, st, t),
        TokenType::ParenClose => on_paren_close(policy, st, t),
        TokenType::CommentLine => written(
            if st.first_on_line {
                line_begun(FormatState { in_singleline_comment: true, ..st })
            } else {
                FormatState { lines: spaced(st.lines), in_singleline_comment: true, ..st }
            },
            t,
        ),
        TokenType::CommentMultiBegin => written(
            line_begun(FormatState { in_multline_comment: true, ..st }),
            t,
        ),
        TokenType::CommentChunk => on_piece(st, t),
        TokenType::CommentMultiEnd => on_piece(
            FormatState { in_multline_comment: false, in_singleline_comment: false, ..st },
            t,
        ),
        TokenType::StringMultiBegin => written(
            line_begun(FormatState { in_multline_string: true, ..st }),
            t,
        ),
        TokenType::StringChunk => on_piece(st, t),
        TokenType::StringMultiEnd => on_piece(FormatState { in_multline_string: false, ..st }, t),
        TokenType::Colon => on_colon(st, t),
        TokenType::Delimiter => on_delimiter(st, t),
        TokenType::Operator => on_operator(st, t),
        TokenType::TypeDef
        | TokenType::Impl
        | TokenType::Fn
        | TokenType::Hash
        | TokenType::Splat
        | TokenType::Namespace
        | TokenType::Keyword
        | TokenType::Flow
        | TokenType::Looping => on_word(st, t, true),
        TokenType::Identifier
        | TokenType::BuiltinType
        | TokenType::TypeName
        | TokenType::ThemeName
        | TokenType::Color
        | TokenType::Macro
        | TokenType::Call
        | TokenType::String
        | TokenType::Regex
        | TokenType::Number
        | TokenType::Bool
        | TokenType::Unexpected
        | TokenType::Error
        | TokenType::Warning
        | TokenType::Defocus => on_word(st, t, false),
    }
}

/// The state after the chunks from `i` on, up to the end marker.
pub open spec fn format_from(
    policy: FormatPolicy,
    flat: Seq<char>,
    tokens: Seq<TokenChunk>,
    i: int,
    st: FormatState,
) -> FormatState
    decreases tokens.len() - i,
{
    if i < 0 || i >= tokens.len() || tokens[i].token_type == TokenType::Eof {
        st
    } else {
        format_from(policy, flat, tokens, i + 1, step(policy, st, seen(flat, tokens, i)))
    }
}

/// The lines that the formatter writes for the chunks of a flat text.
pub open spec fn formatted(
    policy: FormatPolicy,
    flat: Seq<char>,
    tokens: Seq<TokenChunk>,
) -> Seq<Seq<char>> {
    format_from(policy, flat, tokens, 0, initial_state()).lines
}

/// The policy of the contract language: a space in front of an opening brace,
/// none inside the braces.
pub open spec fn sol_policy() -> FormatPolicy {
    FormatPolicy { extra_spacey: false, pre_spacey: true }
}

/// The frames of a stack of groups.
pub open spec fn frames(stack: Seq<ParenStack>) -> Seq<Frame> {
    Seq::new(
        stack.len(),
        |i: int|
            Frame {
                expecting_newlines: stack[i].expecting_newlines,
                expected_indent: stack[i].expected_indent as nat,
            },
    )
}

/// A formatting pass in progress.
pub struct Formatter {
    pub out: FormatOutput,
    pub paren_stack: Vec<ParenStack>,
    pub first_on_line: bool,
    pub first_after_open: bool,
    pub expected_indent: usize,
    pub is_unary_operator: bool,
    pub in_multline_comment: bool,
    pub in_singleline_comment: bool,
    pub in_multline_string: bool,
}

impl Formatter {
    /// The state of the pass.
    pub open spec fn view(&self) -> FormatState {
        FormatState {
            lines: self.out.lines(),
            stack: frames(self.paren_stack@),
            first_on_line: self.first_on_line,
            first_after_open: self.first_after_open,
            expected_indent: self.expected_indent as nat,
            is_unary_operator: self.is_unary_operator,
            in_multline_comment: self.in_multline_comment,
            in_singleline_comment: self.in_singleline_comment,
            in_multline_string: self.in_multline_string,
        }
    }

    /// There is a line to write on and a group to write in.
    pub open spec fn ready(&self) -> bool {
        self.out.lines().len() > 0 && self.paren_stack@.len() > 0
    }

    /// The pass is ready to go on, and no indentation is over `limit`.
    pub open spec fn wf(&self, limit: nat) -> bool {
        &&& self.ready()
        &&& self.expected_indent <= limit
        &&& forall|i: int|
            0 <= i < self.paren_stack@.len() ==> (#[trigger] self.paren_stack@[i]).expected_indent
                <= limit
    }

    /// A pass in front of the first token.
    pub fn new() -> (formatter: Formatter)
        ensures
            formatter@ == initial_state(),
            formatter.wf(0),
    {
        let mut out = FormatOutput::new();
        out.new_line();
        let mut paren_stack: Vec<ParenStack> = Vec::new();
        paren_stack.push(ParenStack { expecting_newlines: true, expected_indent: 0 });
        let formatter = Formatter {
            out,
            paren_stack,
            first_on_line: true,
            first_after_open: false,
            expected_indent: 0,
            is_unary_operator: true,
            in_multline_comment: false,
            in_singleline_comment: false,
            in_multline_string: false,
        };
        assert(formatter@.lines =~= initial_state().lines);
        assert(formatter@.stack =~= initial_state().stack);
        formatter
    }

    /// Begins the line, if nothing stands on it yet, with its indentation.
    fn begin_line(&mut self)
        requires
            old(self).ready(),
        ensures
            final(self)@ == line_begun(old(self)@),
            final(self).ready(),
            final(self).paren_stack == old(self).paren_stack,
            final(self).expected_indent == old(self).expected_indent,
    {
        if self.first_on_line {
            self.first_on_line = false;
            self.out.indent(self.expected_indent);
        }
    }

    /// A word or a piece of a comment: the line is begun if `begin` asks for
    /// it, and the text of the token is written.
    fn write_word<'a>(&mut self, tp: &TokenParser<'a>, begin: bool)
        requires
            old(self).ready(),
            tp.index < tp.tokens@.len(),
            tp.tokens@[tp.index as int].offset + tp.tokens@[tp.index as int].len
                <= tp.flat_text@.len(),
        ensures
            final(self)@ == written(
                if begin {
                    line_begun(old(self)@)
                } else {
                    FormatState { first_on_line: false, ..old(self)@ }
                },
                seen(tp.flat_text@, tp.tokens@, tp.index as int),
            ),
            final(self).ready(),
            final(self).paren_stack == old(self).paren_stack,
            final(self).expected_indent == old(self).expected_indent,
    {
        if begin {
            self.begin_line();
        } else {
            self.first_on_line = false;
        }
        self.out.extend(tp.cur_chunk());
    }

    /// Whether a significant token follows the current one before the next
    /// line break.
    fn more_on_line<'a>(tp: &TokenParser<'a>) -> (more: bool)
        requires
            tp.index < tp.tokens@.len(),
        ensures
            more == more_on_line(tp.tokens@, tp.index + 1),
    {
        let count = tp.tokens.len();
        let mut next: usize = tp.index + 1;
        while next < count
            invariant
                count == tp.tokens@.len(),
                tp.index < next <= tp.tokens@.len(),
                more_on_line(tp.tokens@, tp.index + 1) == more_on_line(tp.tokens@, next as int),
            decreases tp.tokens@.len() - next,
        {
            let kind = tp.tokens[next].token_type;
            if kind == TokenType::Newline {
                return false;
            }
            if !kind.should_ignore() {
                return true;
            }
            next += 1;
        }
        false
    }

    fn whitespace<'a>(&mut self, tp: &TokenParser<'a>)
        requires
            old(self).ready(),
            tp.index < tp.tokens@.len(),
            tp.tokens@[tp.index as int].offset + tp.tokens@[tp.index as int].len
                <= tp.flat_text@.len(),
        ensures
            final(self)@ == on_whitespace(
                old(self)@,
                seen(tp.flat_text@, tp.tokens@, tp.index as int),
            ),
            final(self).ready(),
            final(self).paren_stack == old(self).paren_stack,
            final(self).expected_indent == old(self).expected_indent,
    {
        let prev = Self::last_kind(tp);
        let next = tp.next_type();
        let text = tp.cur_chunk();
        let nul = text.len() > 0 && text[0] == '\0';
        if nul {
            self.in_singleline_comment = false;
            self.in_multline_comment = false;
        }
        if next == TokenType::Eof {
        } else if nul {
            self.first_on_line = false;
            self.out.extend(text);
        } else if self.in_singleline_comment || self.in_multline_comment
            || self.in_multline_string {
            self.out.extend(tp.cur_chunk());
        } else if !self.first_on_line && next != TokenType::Newline && Self::apart(prev, next) {
            self.out.add_space();
        }
    }

    /// Whether whitespace between tokens of these kinds becomes a space.
    fn apart(prev: TokenType, next: TokenType) -> (yes: bool)
        ensures
            yes == keeps_apart(prev, next),
    {
        if prev == TokenType::Operator {
            next == TokenType::Operator || next == TokenType::Regex || next == TokenType::Splat
                || next == TokenType::CommentMultiBegin
        } else {
            prev != TokenType::ParenOpen && prev != TokenType::Namespace && prev
                != TokenType::Delimiter
        }
    }

    fn newline<'a>(&mut self, tp: &TokenParser<'a>)
        requires
            old(self).wf((usize::MAX - INDENT_STEP) as nat),
            formattable(tp.flat_text@, tp.tokens@),
            tp.index < tp.tokens@.len(),
        ensures
            final(self)@ == on_newline(
                old(self)@,
                seen(tp.flat_text@, tp.tokens@, tp.index as int),
            ),
            forall|limit: nat| #[trigger]
                old(self).wf(limit) ==> final(self).wf(limit + INDENT_STEP as nat),
    {
        if self.in_multline_comment || self.in_multline_string {
            self.out.new_line();
            self.first_on_line = true;
            return ;
        }
        let had_space = self.out.ends_in_space();
        let ends_comment = self.in_singleline_comment;
        let keeps_end = ends_comment || Self::prev_open(tp);
        let top = self.paren_stack.len() - 1;
        if self.first_after_open {
            let frame = self.paren_stack[top];
            self.paren_stack.set(
                top,
                ParenStack { expecting_newlines: true, expected_indent: frame.expected_indent },
            );
        }
        assert(frames(self.paren_stack@) =~= if old(self).first_after_open {
            top_expecting(old(self)@.stack)
        } else {
            old(self)@.stack
        });
        if self.paren_stack[top].expecting_newlines || keeps_end {
            if self.first_on_line {
                self.out.indent(self.expected_indent);
            } else if !keeps_end {
                self.out.strip_space();
            }
            if self.first_after_open {
                self.expected_indent += INDENT_STEP;
            }
            self.in_singleline_comment = false;
            self.first_after_open = false;
            self.out.new_line();
            self.first_on_line = true;
        } else if !self.first_on_line {
            let last = Self::last_kind(tp);
            let next = tp.next_type();
            self.out.strip_space();
            if had_space && (last == TokenType::Delimiter || last == TokenType::Operator || last
                == TokenType::Colon) {
                self.out.add_space();
            } else if next != TokenType::Whitespace && next != TokenType::Newline && next
                != TokenType::Eof && Self::apart(last, next) {
                self.out.add_space();
            }
        }
    }

    /// The kind of the last token before the current one that is neither
    /// whitespace nor a line break.
    fn last_kind<'a>(tp: &TokenParser<'a>) -> (kind: TokenType)
        requires
            tp.index < tp.tokens@.len(),
        ensures
            kind == last_significant(tp.tokens@, tp.index as int),
    {
        let mut before: usize = tp.index;
        while before > 0
            invariant
                before <= tp.index < tp.tokens@.len(),
                last_significant(tp.tokens@, tp.index as int) == last_significant(
                    tp.tokens@,
                    before as int,
                ),
            decreases before,
        {
            let kind = tp.tokens[before - 1].token_type;
            if !kind.should_ignore() {
                return kind;
            }
            before -= 1;
        }
        TokenType::Unexpected
    }

    /// Whether the token right before the current one runs to the end of
    /// its line.
    fn prev_open<'a>(tp: &TokenParser<'a>) -> (open: bool)
        requires
            tp.index < tp.tokens@.len(),
            formattable(tp.flat_text@, tp.tokens@),
        ensures
            open == seen(tp.flat_text@, tp.tokens@, tp.index as int).prev_open,
    {
        if tp.index == 0 {
            return false;
        }
        let offset = tp.tokens[tp.index - 1].offset;
        let len = tp.tokens[tp.index - 1].len;
        assert(tp.flat_text@.len() == tp.flat_text.len());
        let text = slice_subrange(tp.flat_text.as_slice(), offset, offset + len);
        match tp.tokens[tp.index - 1].token_type {
            TokenType::String => !string_closed(text),
            TokenType::Regex => !regex_closed(text),
            _ => false,
        }
    }

    fn paren_open<'a>(&mut self, tp: &TokenParser<'a>, policy: FormatPolicy)
        requires
            old(self).ready(),
            tp.index < tp.tokens@.len(),
            tp.tokens@[tp.index as int].offset + tp.tokens@[tp.index as int].len
                <= tp.flat_text@.len(),
            tp.tokens@[tp.index as int].offset < tp.flat_text@.len(),
        ensures
            final(self)@ == on_paren_open(
                policy,
                old(self)@,
                seen(tp.flat_text@, tp.tokens@, tp.index as int),
            ),
            forall|limit: nat| #[trigger] old(self).wf(limit) ==> final(self).wf(limit),
    {
        if self.first_on_line {
            self.out.indent(self.expected_indent);
        }
        self.paren_stack.push(
            ParenStack { expecting_newlines: false, expected_indent: self.expected_indent },
        );
        assert(frames(self.paren_stack@) =~= old(self)@.stack.push(
            Frame { expecting_newlines: false, expected_indent: self.expected_indent as nat },
        ));
        self.first_after_open = true;
        self.is_unary_operator = true;
        let is_curly = tp.cur_char() == '{';
        let last = Self::last_kind(tp);
        if tp.cur_char() == '(' && (last == TokenType::Flow || last == TokenType::Looping
            || last == TokenType::Keyword) {
            self.out.add_space();
        }
        if policy.pre_spacey && is_curly && !self.first_on_line {
            if last != TokenType::ParenOpen && last != TokenType::Colon && last
                != TokenType::Operator && last != TokenType::Delimiter && last
                != TokenType::Namespace {
                self.out.add_space();
            }
        } else if !policy.pre_spacey {
            self.out.strip_space();
        }
        self.out.extend(tp.cur_chunk());
        if policy.extra_spacey && is_curly && tp.next_type() != TokenType::Newline {
            self.out.add_space();
        }
        self.first_on_line = false;
    }

    fn paren_close<'a>(&mut self, tp: &TokenParser<'a>, policy: FormatPolicy)
        requires
            old(self).ready(),
            tp.index < tp.tokens@.len(),
            tp.tokens@[tp.index as int].offset + tp.tokens@[tp.index as int].len
                <= tp.flat_text@.len(),
            tp.tokens@[tp.index as int].offset < tp.flat_text@.len(),
        ensures
            final(self)@ == on_paren_close(
                policy,
                old(self)@,
                seen(tp.flat_text@, tp.tokens@, tp.index as int),
            ),
            forall|limit: nat| #[trigger] old(self).wf(limit) ==> final(self).wf(limit),
    {
        self.out.strip_space();
        let top = self.paren_stack.len() - 1;
        let expecting_newlines = self.paren_stack[top].expecting_newlines;
        if policy.extra_spacey && tp.cur_char() == '}' && !expecting_newlines {
            self.out.add_space();
        }
        self.first_after_open = false;
        if !self.first_on_line && expecting_newlines {
            self.out.new_line();
            self.first_on_line = true;
        }
        self.expected_indent = if self.paren_stack.len() > 1 {
            match self.paren_stack.pop() {
                Some(frame) => frame.expected_indent,
                None => 0,
            }
        } else {
            0
        };
        assert(frames(self.paren_stack@) =~= if old(self)@.stack.len() > 1 {
            old(self)@.stack.drop_last()
        } else {
            old(self)@.stack
        });
        if self.first_on_line {
            self.first_on_line = false;
            self.out.indent(self.expected_indent);
        }
        self.is_unary_operator = tp.cur_char() == '}';
        self.out.extend(tp.cur_chunk());
    }

    fn delimiter<'a>(&mut self, tp: &TokenParser<'a>)
        requires
            old(self).ready(),
            tp.index < tp.tokens@.len(),
            tp.tokens@[tp.index as int].offset + tp.tokens@[tp.index as int].len
                <= tp.flat_text@.len(),
        ensures
            final(self)@ == on_delimiter(
                old(self)@,
                seen(tp.flat_text@, tp.tokens@, tp.index as int),
            ),
            final(self).ready(),
            final(self).paren_stack == old(self).paren_stack,
            final(self).expected_indent == old(self).expected_indent,
    {
        if self.first_on_line {
            self.first_on_line = false;
            self.out.indent(self.expected_indent);
        } else {
            self.out.strip_space();
        }
        self.out.extend(tp.cur_chunk());
        let top = self.paren_stack.len() - 1;
        if self.paren_stack[top].expecting_newlines {
            if tp.next_type() != TokenType::Newline && Self::more_on_line(tp) {
                self.out.new_line();
                self.first_on_line = true;
            }
        } else {
            self.out.add_space();
        }
        self.is_unary_operator = true;
    }

    fn operator<'a>(&mut self, tp: &TokenParser<'a>)
        requires
            old(self).ready(),
            old(self).expected_indent + INDENT_STEP <= usize::MAX,
            tp.index < tp.tokens@.len(),
            tp.tokens@[tp.index as int].offset + tp.tokens@[tp.index as int].len
                <= tp.flat_text@.len(),
            tp.tokens@[tp.index as int].offset < tp.flat_text@.len(),
        ensures
            final(self)@ == on_operator(
                old(self)@,
                seen(tp.flat_text@, tp.tokens@, tp.index as int),
            ),
            final(self).ready(),
            final(self).paren_stack == old(self).paren_stack,
            final(self).expected_indent == old(self).expected_indent,
    {
        if self.first_on_line {
            self.first_on_line = false;
            let extra_indent: usize = if self.is_unary_operator {
                0
            } else {
                INDENT_STEP
            };
            self.out.indent(self.expected_indent + extra_indent);
        }
        let c = tp.cur_char();
        if (self.is_unary_operator && (c == '-' || c == '*' || c == '&')) || c == '.' || c == '!' {
            self.out.extend(tp.cur_chunk());
        } else {
            if c == '?' {
                self.out.strip_space();
            } else {
                self.out.add_space();
            }
            self.out.extend(tp.cur_chunk());
            let top = self.paren_stack.len() - 1;
            if tp.next_type() != TokenType::Newline || !self.paren_stack[top].expecting_newlines {
                self.out.add_space();
            }
        }
        self.is_unary_operator = true;
    }

    fn colon<'a>(&mut self, tp: &TokenParser<'a>)
        requires
            old(self).ready(),
            tp.index < tp.tokens@.len(),
            tp.tokens@[tp.index as int].offset + tp.tokens@[tp.index as int].len
                <= tp.flat_text@.len(),
        ensures
            final(self)@ == on_colon(old(self)@, seen(tp.flat_text@, tp.tokens@, tp.index as int)),
            final(self).ready(),
            final(self).paren_stack == old(self).paren_stack,
            final(self).expected_indent == old(self).expected_indent,
    {
        self.is_unary_operator = true;
        if self.first_on_line {
            self.first_on_line = false;
            self.out.indent(self.expected_indent);
        } else {
            self.out.strip_space();
        }
        self.out.extend(tp.cur_chunk());
        let top = self.paren_stack.len() - 1;
        if tp.next_type() != TokenType::Whitespace && (tp.next_type() != TokenType::Newline
            || !self.paren_stack[top].expecting_newlines) {
            self.out.add_space();
        }
    }

    /// Takes the current token of `tp` into the formatted text, as the rules
    /// for its kind say.
    pub fn step<'a>(&mut self, tp: &TokenParser<'a>, policy: FormatPolicy)
        requires
            old(self).wf((usize::MAX - INDENT_STEP) as nat),
            formattable(tp.flat_text@, tp.tokens@),
            tp.index < tp.tokens@.len(),
        ensures
            final(self)@ == step(
                policy,
                old(self)@,
                seen(tp.flat_text@, tp.tokens@, tp.index as int),
            ),
            forall|limit: nat| #[trigger]
                old(self).wf(limit) ==> final(self).wf(limit + INDENT_STEP as nat),
    {
        assert(tp.tokens@[tp.index as int].token_type != TokenType::Eof
            ==> tp.tokens@[tp.index as int].offset < tp.flat_text@.len());
        match tp.cur_type() {
            TokenType::Whitespace => self.whitespace(tp),
            TokenType::Newline => self.newline(tp),
            TokenType::Eof => {},
            TokenType::ParenOpen => self.paren_open(tp, policy),
            TokenType::ParenClose => self.paren_close(tp, policy),
            TokenType::CommentLine => {
                self.in_singleline_comment = true;
                if self.first_on_line {
                    self.first_on_line = false;
                    self.out.indent(self.expected_indent);
                } else {
                    self.out.add_space();
                }
                self.out.extend(tp.cur_chunk());
            },
            TokenType::CommentMultiBegin => {
                self.in_multline_comment = true;
                self.write_word(tp, true);
            },
            TokenType::CommentChunk => self.write_word(tp, false),
            TokenType::CommentMultiEnd => {
                self.in_multline_comment = false;
                self.in_singleline_comment = false;
                self.write_word(tp, false);
            },
            TokenType::StringMultiBegin => {
                self.in_multline_string = true;
                self.write_word(tp, true);
            },
            TokenType::StringChunk => self.write_word(tp, false),
            TokenType::StringMultiEnd => {
                self.in_multline_string = false;
                self.write_word(tp, false);
            },
            TokenType::Colon => self.colon(tp),
            TokenType::Delimiter => self.delimiter(tp),
            TokenType::Operator => self.operator(tp),
            TokenType::TypeDef
            | TokenType::Impl
            | TokenType::Fn
            | TokenType::Hash
            | TokenType::Splat
            | TokenType::Namespace
            | TokenType::Keyword
            | TokenType::Flow
            | TokenType::Looping => {
                self.is_unary_operator = true;
                self.first_after_open = false;
                self.write_word(tp, true);
            },
            TokenType::Identifier
            | TokenType::BuiltinType
            | TokenType::TypeName
            | TokenType::ThemeName
            | TokenType::Color
            | TokenType::Macro
            | TokenType::Call
            | TokenType::String
            | TokenType::Regex
            | TokenType::Number
            | TokenType::Bool
            | TokenType::Unexpected
            | TokenType::Error
            | TokenType::Warning
            | TokenType::Defocus => {
                self.is_unary_operator = false;
                self.first_after_open = false;
                self.write_word(tp, true);
            },
        }
    }
}

/// Writes the text of the chunks anew, as the rules of the formatter and the
/// policy of the dialect say. The pass ends at the end marker, or behind the
/// last chunk where there is none.
pub fn format_tokens(
    flat_text: &Vec<char>,
    token_chunks: &Vec<TokenChunk>,
    policy: FormatPolicy,
) -> (out: FormatOutput)
    requires
        formattable(flat_text@, token_chunks@),
        INDENT_STEP * (token_chunks@.len() + 1) <= usize::MAX,
    ensures
        out.lines() == formatted(policy, flat_text@, token_chunks@),
{
    let mut tp = TokenParser::new(flat_text, token_chunks);
    let mut formatter = Formatter::new();
    loop
        invariant_except_break
            formatter.wf((INDENT_STEP * tp.next_index) as nat),
            forall|j: int| 0 <= j < tp.next_index ==> (#[trigger] token_chunks@[j]).token_type
                != TokenType::Eof,
            formatted(policy, flat_text@, token_chunks@) == format_from(
                policy,
                flat_text@,
                token_chunks@,
                tp.next_index as int,
                formatter@,
            ).lines,
        invariant
            tp.tokens == token_chunks,
            tp.flat_text == flat_text,
            tp.next_index <= token_chunks@.len(),
            formattable(flat_text@, token_chunks@),
            INDENT_STEP * (token_chunks@.len() + 1) <= usize::MAX,
        ensures
            formatter@.lines == formatted(policy, flat_text@, token_chunks@),
        decreases token_chunks@.len() - tp.next_index,
    {
        if !tp.advance() {
            break ;
        }
        if tp.cur_type() == TokenType::Eof {
            break ;
        }
        formatter.step(&tp, policy);
    }
    formatter.out
}

impl SOLTokenizer {
    /// Writes the document anew from its flat text and its chunks, with the
    /// spacing and indentation of the contract language. The document stays
    /// as it is; the new lines come back.
    pub fn auto_format(text_buffer: &mut TextBuffer) -> (out: FormatOutput)
        requires
            formattable(old(text_buffer).flat_text@, old(text_buffer).token_chunks@),
            INDENT_STEP * (old(text_buffer).token_chunks@.len() + 1) <= usize::MAX,
        ensures
            *final(text_buffer) == *old(text_buffer),
            out.lines() == formatted(
                sol_policy(),
                old(text_buffer).flat_text@,
                old(text_buffer).token_chunks@,
            ),
    {
        let extra_spacey = false;
        let pre_spacey = true;
        format_tokens(
            &text_buffer.flat_text,
            &text_buffer.token_chunks,
            FormatPolicy { extra_spacey, pre_spacey },
        )
    }
}

/// The text begins with the character `'\0'`, which ends a comment.
pub open spec fn begins_with_nul(text: Seq<char>) -> bool {
    text.len() > 0 && text[0] == '\0'
}

/// `kind` is a comment or string token, whose text is its payload.
pub open spec fn carries_payload(kind: TokenType) -> bool {
    kind == TokenType::CommentLine || kind == TokenType::CommentMultiBegin || kind
        == TokenType::CommentChunk || kind == TokenType::CommentMultiEnd || kind
        == TokenType::String || kind == TokenType::StringMultiBegin || kind
        == TokenType::StringChunk || kind == TokenType::StringMultiEnd
}

/// `kind` begins a comment, or a string that goes over several lines.
pub open spec fn opens_payload(kind: TokenType) -> bool {
    kind == TokenType::CommentLine || kind == TokenType::CommentMultiBegin || kind
        == TokenType::StringMultiBegin
}

/// The pass stands inside a comment or a string that goes over several
/// tokens.
pub open spec fn inside_payload(st: FormatState) -> bool {
    st.in_singleline_comment || st.in_multline_comment || st.in_multline_string
}

/// `kind` is a word: a name, a keyword, a literal or a marker.
pub open spec fn is_word(kind: TokenType) -> bool {
    !carries_payload(kind) && kind != TokenType::Whitespace && kind != TokenType::Newline && kind
        != TokenType::Eof && kind != TokenType::ParenOpen && kind != TokenType::ParenClose && kind
        != TokenType::Colon && kind != TokenType::Delimiter && kind != TokenType::Operator
        || kind == TokenType::String
}

/// There is a line to write on and a group to write in.
pub open spec fn in_progress(st: FormatState) -> bool {
    st.lines.len() > 0 && st.stack.len() > 0
}

/// The text of a comment or string token, and of whitespace inside a comment
/// or string, goes into the output as it is: the token adds no line, leaves
/// the lines before the last one alone, and the last line is what it was,
/// then at most indentation or one space, then the text of the token.
pub proof fn lemma_payload_kept(policy: FormatPolicy, st: FormatState, t: Seen)
    requires
        in_progress(st),
        carries_payload(t.kind) || (t.kind == TokenType::Whitespace && inside_payload(st)
            && t.next_kind != TokenType::Eof && !begins_with_nul(t.text)),
    ensures
        ({
            let after = step(policy, st, t).lines;
            let last = st.lines.last();
            &&& after.len() == st.lines.len()
            &&& forall|i: int| 0 <= i < after.len() - 1 ==> after[i] == st.lines[i]
            &&& after.last() == last + t.text || after.last() == last + seq![' '] + t.text
                || after.last() == last + spaces(st.expected_indent) + t.text
        }),
{
    let after = step(policy, st, t).lines;
    let last = st.lines.last();
    assert(last + spaces(st.expected_indent) + t.text =~= (last + spaces(st.expected_indent))
        + t.text);
    assert(last + seq![' '] + t.text =~= (last + seq![' ']) + t.text);
}

/// A group whose opener is followed by a line break at once is laid out over
/// several lines: the break marks the group so, begins a new line, and sets
/// the indentation one step deeper than that of the opener's line.
pub proof fn lemma_break_behind_opener(policy: FormatPolicy, st: FormatState, t: Seen)
    requires
        in_progress(st),
        !st.in_multline_comment && !st.in_multline_string,
        st.first_after_open,
        t.kind == TokenType::Newline,
    ensures
        ({
            let after = step(policy, st, t);
            &&& after.stack.len() == st.stack.len()
            &&& after.stack.last().expecting_newlines
            &&& after.stack.last().expected_indent == st.stack.last().expected_indent
            &&& after.expected_indent == st.expected_indent + INDENT_STEP
            &&& after.lines.len() == st.lines.len() + 1
            &&& after.lines.last().len() == 0
            &&& after.first_on_line
        }),
{
}

/// Inside a group that is laid out over several lines, a separator ends the
/// line whenever another item follows on it: each item gets a line of its
/// own.
pub proof fn lemma_separator_ends_line(policy: FormatPolicy, st: FormatState, t: Seen)
    requires
        in_progress(st),
        st.stack.last().expecting_newlines,
        t.kind == TokenType::Delimiter,
        t.next_kind != TokenType::Newline,
        t.more_on_line,
    ensures
        ({
            let after = step(policy, st, t);
            &&& after.stack == st.stack
            &&& after.expected_indent == st.expected_indent
            &&& after.lines.len() == st.lines.len() + 1
            &&& after.lines.last().len() == 0
            &&& after.first_on_line
        }),
{
}

/// A word that begins a line stands behind the indentation of its group and
/// nothing else.
pub proof fn lemma_word_begins_indented(policy: FormatPolicy, st: FormatState, t: Seen)
    requires
        in_progress(st),
        st.first_on_line,
        is_word(t.kind),
    ensures
        ({
            let after = step(policy, st, t);
            &&& after.lines.len() == st.lines.len()
            &&& after.lines.last() == st.lines.last() + spaces(st.expected_indent) + t.text
            &&& !after.first_on_line
            &&& after.expected_indent == st.expected_indent
        }),
{
    assert(st.lines.last() + spaces(st.expected_indent) + t.text =~= (st.lines.last() + spaces(
        st.expected_indent,
    )) + t.text);
}

/// Inside a group that stays on one line nothing begins a new line, however
/// many separators there are: only a line break right behind the opener of a
/// group can turn the group into one that is laid out over several lines.
/// The line breaks of comments and of strings over several lines are kept
/// wherever they stand, and so is the line break behind a string or a
/// regular expression that has no closing mark.
pub proof fn lemma_group_stays_on_line(policy: FormatPolicy, st: FormatState, t: Seen)
    requires
        in_progress(st),
        !st.stack.last().expecting_newlines,
        !(t.kind == TokenType::Newline && (st.first_after_open || inside_payload(st)
            || t.prev_open)),
    ensures
        step(policy, st, t).lines.len() == st.lines.len(),
        t.kind != TokenType::ParenOpen && t.kind != TokenType::ParenClose ==> step(
            policy,
            st,
            t,
        ).stack == st.stack,
{
}

/// The state after the chunks from `i` up to `j`, the end marker counting as
/// a chunk like any other.
pub open spec fn format_range(
    policy: FormatPolicy,
    flat: Seq<char>,
    tokens: Seq<TokenChunk>,
    i: int,
    j: int,
    st: FormatState,
) -> FormatState
    decreases j - i,
{
    if i >= j {
        st
    } else {
        format_range(policy, flat, tokens, i + 1, j, step(policy, st, seen(flat, tokens, i)))
    }
}

/// The texts of the chunks from `i` up to `j`, one behind the other.
pub open spec fn texts(flat: Seq<char>, tokens: Seq<TokenChunk>, i: int, j: int) -> Seq<char>
    decreases j - i,
{
    if i >= j {
        Seq::empty()
    } else {
        chunk_text(flat, tokens[i]) + texts(flat, tokens, i + 1, j)
    }
}

/// A pass can be cut in two at any chunk before the end marker: what it
/// makes of the chunks from `i` on is what it makes of the chunks from `j`
/// on, begun in the state that the chunks from `i` up to `j` lead to.
pub proof fn lemma_format_splits(
    policy: FormatPolicy,
    flat: Seq<char>,
    tokens: Seq<TokenChunk>,
    i: int,
    j: int,
    st: FormatState,
)
    requires
        0 <= i <= j <= tokens.len(),
        forall|k: int| i <= k < j ==> (#[trigger] tokens[k]).token_type != TokenType::Eof,
    ensures
        format_from(policy, flat, tokens, i, st) == format_from(
            policy,
            flat,
            tokens,
            j,
            format_range(policy, flat, tokens, i, j, st),
        ),
    decreases j - i,
{
    if i < j {
        assert(tokens[i].token_type != TokenType::Eof);
        let next = step(policy, st, seen(flat, tokens, i));
        lemma_format_splits(policy, flat, tokens, i + 1, j, next);
    }
}

/// A group stays on one line, however many separators it holds, as long as
/// no line break follows its opener at once: chunks among which no group is
/// opened or closed, no comment or string over several lines begins and no
/// string or regular expression runs to the end of its line start no new
/// line inside a group that is not laid out over several lines. `st` is the
/// state in front of the chunks; in it the opener is no longer the last
/// significant token, or else there is no line break among the chunks.
pub proof fn lemma_flat_group_stays_on_line(
    policy: FormatPolicy,
    flat: Seq<char>,
    tokens: Seq<TokenChunk>,
    i: int,
    j: int,
    st: FormatState,
)
    requires
        0 <= i <= j <= tokens.len(),
        in_progress(st),
        !st.stack.last().expecting_newlines,
        !inside_payload(st),
        forall|k: int|
            i <= k < j ==> (#[trigger] tokens[k]).token_type != TokenType::ParenOpen
                && tokens[k].token_type != TokenType::ParenClose && !opens_payload(
                tokens[k].token_type,
            ),
        forall|k: int|
            i <= k < j ==> !(tokens[k].token_type == TokenType::Newline && (#[trigger] seen(
                flat,
                tokens,
                k,
            )).prev_open),
        !st.first_after_open || forall|k: int|
            i <= k < j ==> (#[trigger] tokens[k]).token_type != TokenType::Newline,
    ensures
        format_range(policy, flat, tokens, i, j, st).lines.len() == st.lines.len(),
        format_range(policy, flat, tokens, i, j, st).stack == st.stack,
    decreases j - i,
{
    if i < j {
        let t = seen(flat, tokens, i);
        let next = step(policy, st, t);
        assert(tokens[i].token_type != TokenType::ParenOpen && !opens_payload(
            tokens[i].token_type,
        ));
        assert(!(tokens[i].token_type == TokenType::Newline && seen(flat, tokens, i).prev_open));
        lemma_group_stays_on_line(policy, st, t);
        assert(next.first_after_open ==> st.first_after_open);
        assert(!inside_payload(next));
        lemma_flat_group_stays_on_line(policy, flat, tokens, i + 1, j, next);
    }
}

/// A group whose opener is followed by a line break at once is laid out one
/// step deeper than the line of its opener: behind the opener and the break,
/// a new line is begun, the group is marked as laid out over several lines,
/// and the indentation is that of the opener's line and one step more.
pub proof fn lemma_opened_group_indents(
    policy: FormatPolicy,
    st: FormatState,
    opener: Seen,
    line_break: Seen,
)
    requires
        in_progress(st),
        !st.in_multline_comment && !st.in_multline_string,
        opener.kind == TokenType::ParenOpen,
        line_break.kind == TokenType::Newline,
    ensures
        ({
            let after = step(policy, step(policy, st, opener), line_break);
            &&& after.stack == st.stack.push(
                Frame { expecting_newlines: true, expected_indent: st.expected_indent },
            )
            &&& after.expected_indent == st.expected_indent + INDENT_STEP
            &&& after.lines.len() == st.lines.len() + 1
            &&& after.lines.last().len() == 0
            &&& after.first_on_line
        }),
{
    let opened = step(policy, st, opener);
    lemma_break_behind_opener(policy, opened, line_break);
    assert(step(policy, opened, line_break).stack =~= st.stack.push(
        Frame { expecting_newlines: true, expected_indent: st.expected_indent },
    ));
}

/// Inside a group that is laid out over several lines, the item behind a
/// separator stands on a line of its own, behind the indentation of the group
/// and nothing else.
pub proof fn lemma_item_on_its_own_line(
    policy: FormatPolicy,
    st: FormatState,
    separator: Seen,
    item: Seen,
)
    requires
        in_progress(st),
        st.stack.last().expecting_newlines,
        separator.kind == TokenType::Delimiter,
        separator.next_kind != TokenType::Newline,
        separator.more_on_line,
        is_word(item.kind),
    ensures
        ({
            let after = step(policy, step(policy, st, separator), item);
            &&& after.lines.len() == st.lines.len() + 1
            &&& after.lines.last() == spaces(st.expected_indent) + item.text
            &&& after.expected_indent == st.expected_indent
            &&& after.stack == st.stack
        }),
{
    let broken = step(policy, st, separator);
    lemma_separator_ends_line(policy, st, separator);
    lemma_word_begins_indented(policy, broken, item);
    assert(broken.lines.last() =~= Seq::<char>::empty());
    assert(broken.lines.last() + spaces(st.expected_indent) + item.text =~= spaces(
        st.expected_indent,
    ) + item.text);
}

/// Whitespace in front of the first token of a line is left out, unless it
/// is the character `'\0'`.
pub proof fn lemma_leading_whitespace_dropped(policy: FormatPolicy, st: FormatState, t: Seen)
    requires
        st.first_on_line,
        !inside_payload(st),
        t.kind == TokenType::Whitespace,
        !begins_with_nul(t.text),
    ensures
        step(policy, st, t) == st,
{
}

/// Whitespace between the start of a line and its first token is left out:
/// a run of whitespace tokens at the start of a line changes nothing.
pub proof fn lemma_leading_run_dropped(
    policy: FormatPolicy,
    flat: Seq<char>,
    tokens: Seq<TokenChunk>,
    i: int,
    j: int,
    st: FormatState,
)
    requires
        0 <= i <= j <= tokens.len(),
        st.first_on_line,
        !inside_payload(st),
        forall|k: int| i <= k < j ==> (#[trigger] tokens[k]).token_type == TokenType::Whitespace,
        forall|k: int| i <= k < j ==> !begins_with_nul(#[trigger] chunk_text(flat, tokens[k])),
    ensures
        format_range(policy, flat, tokens, i, j, st) == st,
    decreases j - i,
{
    if i < j {
        assert(tokens[i].token_type == TokenType::Whitespace);
        lemma_leading_whitespace_dropped(policy, st, seen(flat, tokens, i));
        lemma_leading_run_dropped(policy, flat, tokens, i + 1, j, st);
    }
}

/// A colon begins its line as every other token does: where nothing stands
/// on the line yet, it is written behind the indentation, with or without a
/// space behind it, and what follows it no longer begins the line.
pub proof fn lemma_colon_begins_line(policy: FormatPolicy, st: FormatState, t: Seen)
    requires
        in_progress(st),
        st.first_on_line,
        t.kind == TokenType::Colon,
    ensures
        !step(policy, st, t).first_on_line,
        step(policy, st, t).lines == extended(indented(st.lines, st.expected_indent), t.text)
            || step(policy, st, t).lines == spaced(
            extended(indented(st.lines, st.expected_indent), t.text),
        ),
{
}

/// Where a string or a regular expression without its closing mark runs to
/// the end of a line, the line break leaves that line as it is, blanks at its
/// end and all.
pub proof fn lemma_line_end_behind_string(policy: FormatPolicy, st: FormatState, t: Seen)
    requires
        in_progress(st),
        !st.first_on_line,
        t.kind == TokenType::Newline,
        t.prev_open,
    ensures
        step(policy, st, t).lines == with_new_line(st.lines),
        step(policy, st, t).first_on_line,
{
}

/// Whitespace between an operator and a token that would run into it, which
/// is another operator, a regular expression, a splat or a comment opener,
/// leaves a space between the two.
pub proof fn lemma_blank_keeps_tokens_apart(policy: FormatPolicy, st: FormatState, t: Seen)
    requires
        in_progress(st),
        !st.first_on_line,
        !inside_payload(st),
        t.kind == TokenType::Whitespace,
        !begins_with_nul(t.text),
        t.last_kind == TokenType::Operator,
        t.next_kind == TokenType::Operator || t.next_kind == TokenType::Regex || t.next_kind
            == TokenType::Splat || t.next_kind == TokenType::CommentMultiBegin,
    ensures
        step(policy, st, t) == (FormatState { lines: spaced(st.lines), ..st }),
        ends_in_space(step(policy, st, t).lines),
{
}

/// Whitespace in front of an opening brace changes nothing: whether a space
/// stands in front of the brace goes by the last token before it that is
/// neither whitespace nor a line break, and a pass over the whitespace and
/// the brace writes what the brace alone would have it write. A colon is left
/// out: it leaves its space to the whitespace behind it.
pub proof fn lemma_blanks_before_brace(
    policy: FormatPolicy,
    flat: Seq<char>,
    tokens: Seq<TokenChunk>,
    i: int,
    j: int,
    st: FormatState,
)
    requires
        0 <= i < j <= tokens.len(),
        in_progress(st),
        policy.pre_spacey,
        !st.first_on_line,
        !inside_payload(st),
        last_significant(tokens, i) != TokenType::Colon,
        tokens[j - 1].token_type == TokenType::ParenOpen,
        chunk_char(flat, tokens[j - 1]) == '{',
        forall|k: int|
            i <= k < j - 1 ==> (#[trigger] tokens[k]).token_type == TokenType::Whitespace,
        forall|k: int|
            i <= k < j - 1 ==> !begins_with_nul(#[trigger] chunk_text(flat, tokens[k])),
    ensures
        format_range(policy, flat, tokens, i, j, st) == step(
            policy,
            st,
            seen(flat, tokens, j - 1),
        ),
    decreases j - i,
{
    let brace = seen(flat, tokens, j - 1);
    if i == j - 1 {
        assert(format_range(policy, flat, tokens, i + 1, j, step(policy, st, brace)) == step(
            policy,
            st,
            brace,
        ));
    } else {
        let t = seen(flat, tokens, i);
        let next = step(policy, st, t);
        assert(tokens[i].token_type == TokenType::Whitespace);
        assert(!begins_with_nul(chunk_text(flat, tokens[i])));
        assert(tokens[i + 1].token_type == TokenType::Whitespace || tokens[i + 1].token_type
            == TokenType::ParenOpen);
        assert(last_significant(tokens, i + 1) == last_significant(tokens, i));
        lemma_blanks_keep_last(tokens, i, j - 1);
        lemma_blanks_before_brace(policy, flat, tokens, i + 1, j, next);
        if next != st {
            assert(next == (FormatState { lines: spaced(st.lines), ..st }));
            assert(spaced(spaced(st.lines)) == spaced(st.lines));
            assert(sets_brace_apart(brace.last_kind));
            assert(open_spaced(policy, next, brace) == open_spaced(policy, st, brace));
        }
        assert(step(policy, next, brace) == step(policy, st, brace));
    }
}

/// Whitespace and line breaks do not change which token was the last one
/// that is neither.
pub proof fn lemma_blanks_keep_last(tokens: Seq<TokenChunk>, i: int, j: int)
    requires
        0 <= i <= j <= tokens.len(),
        forall|k: int| i <= k < j ==> (#[trigger] tokens[k]).token_type.ignorable(),
    ensures
        last_significant(tokens, j) == last_significant(tokens, i),
    decreases j - i,
{
    if i < j {
        assert(tokens[j - 1].token_type.ignorable());
        lemma_blanks_keep_last(tokens, i, j - 1);
    }
}

/// The last line ends in one space, and in one only.
pub open spec fn ends_in_one_space(lines: Seq<Seq<char>>) -> bool {
    let last = lines.last();
    last.len() > 0 && last.last() == ' ' && (last.len() == 1 || last[last.len() - 2] != ' ')
}

/// Behind a separator in a group that stays on one line, whitespace and line
/// breaks change nothing: the one space that follows the separator stays as
/// it is. `st` is the state behind the separator.
pub proof fn lemma_blanks_behind_separator(
    policy: FormatPolicy,
    flat: Seq<char>,
    tokens: Seq<TokenChunk>,
    i: int,
    j: int,
    st: FormatState,
)
    requires
        0 <= i <= j <= tokens.len(),
        in_progress(st),
        !st.stack.last().expecting_newlines,
        !st.first_after_open,
        !st.first_on_line,
        !inside_payload(st),
        ends_in_one_space(st.lines),
        last_significant(tokens, i) == TokenType::Delimiter,
        forall|k: int| i <= k < j ==> (#[trigger] tokens[k]).token_type.ignorable(),
        forall|k: int| i <= k < j ==> !begins_with_nul(#[trigger] chunk_text(flat, tokens[k])),
    ensures
        format_range(policy, flat, tokens, i, j, st) == st,
    decreases j - i,
{
    if i < j {
        let t = seen(flat, tokens, i);
        assert(tokens[i].token_type.ignorable());
        assert(last_significant(tokens, i + 1) == last_significant(tokens, i));
        if t.kind == TokenType::Newline {
            let last = st.lines.last();
            assert(spaced(stripped(st.lines)) =~= st.lines) by {
                assert(stripped(st.lines).last() =~= last.drop_last());
                assert(last.drop_last() + seq![' '] =~= last);
            }
        }
        assert(step(policy, st, t) == st);
        lemma_blanks_behind_separator(policy, flat, tokens, i + 1, j, st);
    }
}

/// Behind a separator in a group that stays on one line there is one space,
/// whatever the text has there: nothing, whitespace, or line breaks that the
/// group leaves out. So a pass over text that has the one space there writes
/// what a pass over any other spacing of the same tokens writes.
pub proof fn lemma_separator_spacing_settled(
    policy: FormatPolicy,
    flat: Seq<char>,
    tokens: Seq<TokenChunk>,
    i: int,
    j: int,
    st: FormatState,
)
    requires
        0 <= i < j <= tokens.len(),
        in_progress(st),
        !st.stack.last().expecting_newlines,
        !st.first_after_open,
        !inside_payload(st),
        tokens[i].token_type == TokenType::Delimiter,
        chunk_text(flat, tokens[i]).len() > 0,
        chunk_text(flat, tokens[i]).last() != ' ',
        forall|k: int| i < k < j ==> (#[trigger] tokens[k]).token_type.ignorable(),
        forall|k: int| i <= k < j ==> !begins_with_nul(#[trigger] chunk_text(flat, tokens[k])),
    ensures
        format_range(policy, flat, tokens, i, j, st) == step(
            policy,
            st,
            seen(flat, tokens, i),
        ),
        format_range(policy, flat, tokens, i, j, st).lines == extended(
            extended(
                if st.first_on_line {
                    indented(st.lines, st.expected_indent)
                } else {
                    stripped(st.lines)
                },
                chunk_text(flat, tokens[i]),
            ),
            seq![' '],
        ),
{
    let t = seen(flat, tokens, i);
    let text = chunk_text(flat, tokens[i]);
    let after = step(policy, st, t);
    let begun = if st.first_on_line {
        indented(st.lines, st.expected_indent)
    } else {
        stripped(st.lines)
    };
    let written = extended(begun, text);
    assert(written.last() =~= begun.last() + text);
    assert(written.last().last() == text.last());
    assert(after.lines == extended(written, seq![' ']));
    assert(after.lines.last() =~= written.last() + seq![' ']);
    assert(last_significant(tokens, i + 1) == TokenType::Delimiter);
    lemma_blanks_behind_separator(policy, flat, tokens, i + 1, j, after);
}

/// The inside of a comment or of a string over several lines goes into the
/// output as it is: a run of its pieces and of the whitespace between them,
/// short of the end of the text, appends their texts to the last line, one
/// behind the other, and changes nothing else of the lines.
pub proof fn lemma_payload_run_kept(
    policy: FormatPolicy,
    flat: Seq<char>,
    tokens: Seq<TokenChunk>,
    i: int,
    j: int,
    st: FormatState,
)
    requires
        0 <= i <= j <= tokens.len(),
        in_progress(st),
        inside_payload(st),
        j < tokens.len() ==> tokens[j].token_type != TokenType::Eof,
        forall|k: int|
            i <= k < j ==> (#[trigger] tokens[k]).token_type == TokenType::Whitespace
                || tokens[k].token_type == TokenType::CommentChunk || tokens[k].token_type
                == TokenType::StringChunk,
        forall|k: int| i <= k < j ==> !begins_with_nul(#[trigger] chunk_text(flat, tokens[k])),
    ensures
        format_range(policy, flat, tokens, i, j, st).lines == extended(
            st.lines,
            texts(flat, tokens, i, j),
        ),
        inside_payload(format_range(policy, flat, tokens, i, j, st)),
    decreases j - i,
{
    if i < j {
        let t = seen(flat, tokens, i);
        let next = step(policy, st, t);
        assert(tokens[i].token_type == TokenType::Whitespace || tokens[i].token_type
            == TokenType::CommentChunk || tokens[i].token_type == TokenType::StringChunk);
        assert(next.lines == extended(st.lines, t.text));
        lemma_payload_run_kept(policy, flat, tokens, i + 1, j, next);
        assert(extended(extended(st.lines, t.text), texts(flat, tokens, i + 1, j)) =~= extended(
            st.lines,
            t.text + texts(flat, tokens, i + 1, j),
        )) by {
            assert((st.lines.last() + t.text) + texts(flat, tokens, i + 1, j) =~= st.lines.last()
                + (t.text + texts(flat, tokens, i + 1, j)));
        }
    } else {
        assert(extended(st.lines, Seq::<char>::empty()) =~= st.lines) by {
            assert(st.lines.last() + Seq::<char>::empty() =~= st.lines.last());
        }
    }
}

/// The lines with `text` written behind them, every line break in the text
/// beginning a new line.
pub open spec fn appended(lines: Seq<Seq<char>>, text: Seq<char>) -> Seq<Seq<char>>
    decreases text.len(),
{
    if text.len() == 0 {
        lines
    } else if text[0] == '\n' {
        appended(with_new_line(lines), text.drop_first())
    } else {
        appended(extended(lines, seq![text[0]]), text.drop_first())
    }
}

/// `text` has no line break in it.
pub open spec fn on_one_line(text: Seq<char>) -> bool {
    forall|i: int| 0 <= i < text.len() ==> #[trigger] text[i] != '\n'
}

/// Chunk `k` is a line break and nothing else, or has no line break in it.
pub open spec fn breaks_alone(flat: Seq<char>, tokens: Seq<TokenChunk>, k: int) -> bool {
    if tokens[k].token_type == TokenType::Newline {
        chunk_text(flat, tokens[k]) == seq!['\n']
    } else {
        on_one_line(chunk_text(flat, tokens[k]))
    }
}

/// Writing one text behind another is writing the two as one.
pub proof fn lemma_appended_twice(lines: Seq<Seq<char>>, a: Seq<char>, b: Seq<char>)
    ensures
        appended(appended(lines, a), b) == appended(lines, a + b),
    decreases a.len(),
{
    if a.len() == 0 {
        assert(a + b =~= b);
    } else {
        assert((a + b).drop_first() =~= a.drop_first() + b);
        assert((a + b)[0] == a[0]);
        if a[0] == '\n' {
            lemma_appended_twice(with_new_line(lines), a.drop_first(), b);
        } else {
            lemma_appended_twice(extended(lines, seq![a[0]]), a.drop_first(), b);
        }
    }
}

/// A text without a line break is written on the last line.
pub proof fn lemma_appended_on_one_line(lines: Seq<Seq<char>>, text: Seq<char>)
    requires
        lines.len() > 0,
        on_one_line(text),
    ensures
        appended(lines, text) == extended(lines, text),
    decreases text.len(),
{
    if text.len() == 0 {
        assert(lines.last() + text =~= lines.last());
        assert(extended(lines, text) =~= lines);
    } else {
        let first = extended(lines, seq![text[0]]);
        let rest = text.drop_first();
        assert(text[0] != '\n');
        assert forall|i: int| 0 <= i < rest.len() implies #[trigger] rest[i] != '\n' by {
            assert(rest[i] == text[i + 1]);
        }
        lemma_appended_on_one_line(first, rest);
        assert((lines.last() + seq![text[0]]) + rest =~= lines.last() + text);
        assert(extended(first, rest) =~= extended(lines, text));
    }
}

/// The inside of a comment or of a string that goes over several lines is
/// written as it stands in the text, character for character, its line
/// breaks as line breaks: a run of its pieces, of the whitespace between them
/// and of its line breaks, short of the end of the text, writes their texts
/// behind what is there and changes nothing else of the lines.
pub proof fn lemma_payload_span_kept(
    policy: FormatPolicy,
    flat: Seq<char>,
    tokens: Seq<TokenChunk>,
    i: int,
    j: int,
    st: FormatState,
)
    requires
        0 <= i <= j <= tokens.len(),
        in_progress(st),
        st.in_multline_comment || st.in_multline_string,
        j < tokens.len() ==> tokens[j].token_type != TokenType::Eof,
        forall|k: int|
            i <= k < j ==> (#[trigger] tokens[k]).token_type == TokenType::Whitespace
                || tokens[k].token_type == TokenType::CommentChunk || tokens[k].token_type
                == TokenType::StringChunk || tokens[k].token_type == TokenType::Newline,
        forall|k: int| i <= k < j ==> #[trigger] breaks_alone(flat, tokens, k),
        forall|k: int| i <= k < j ==> !begins_with_nul(#[trigger] chunk_text(flat, tokens[k])),
    ensures
        format_range(policy, flat, tokens, i, j, st).lines == appended(
            st.lines,
            texts(flat, tokens, i, j),
        ),
        format_range(policy, flat, tokens, i, j, st).in_multline_comment
            == st.in_multline_comment,
        format_range(policy, flat, tokens, i, j, st).in_multline_string == st.in_multline_string,
        in_progress(format_range(policy, flat, tokens, i, j, st)),
    decreases j - i,
{
    if i < j {
        let t = seen(flat, tokens, i);
        let next = step(policy, st, t);
        let rest = texts(flat, tokens, i + 1, j);
        assert(tokens[i].token_type == TokenType::Whitespace || tokens[i].token_type
            == TokenType::CommentChunk || tokens[i].token_type == TokenType::StringChunk
            || tokens[i].token_type == TokenType::Newline);
        assert(breaks_alone(flat, tokens, i));
        if t.kind == TokenType::Newline {
            assert(next.lines == with_new_line(st.lines));
            assert(t.text.drop_first() =~= Seq::<char>::empty());
            assert(appended(with_new_line(st.lines), t.text.drop_first()) == with_new_line(
                st.lines,
            ));
            assert(appended(st.lines, t.text) == with_new_line(st.lines));
        } else {
            assert(next.lines == extended(st.lines, t.text));
            lemma_appended_on_one_line(st.lines, t.text);
        }
        lemma_payload_span_kept(policy, flat, tokens, i + 1, j, next);
        lemma_appended_twice(st.lines, t.text, rest);
    }
}

/// A comment that begins with `/*` is written as it stands in the text, from
/// its opener to its closer, behind the indentation of its line where it
/// begins one. `i` is the chunk of the opener and `j - 1` that of the closer.
pub proof fn lemma_block_comment_kept(
    policy: FormatPolicy,
    flat: Seq<char>,
    tokens: Seq<TokenChunk>,
    i: int,
    j: int,
    st: FormatState,
)
    requires
        0 <= i && i + 1 < j <= tokens.len(),
        in_progress(st),
        !st.in_multline_string,
        tokens[i].token_type == TokenType::CommentMultiBegin,
        tokens[j - 1].token_type == TokenType::CommentMultiEnd,
        forall|k: int|
            i < k < j - 1 ==> (#[trigger] tokens[k]).token_type == TokenType::Whitespace
                || tokens[k].token_type == TokenType::CommentChunk || tokens[k].token_type
                == TokenType::Newline,
        forall|k: int| i <= k < j ==> #[trigger] breaks_alone(flat, tokens, k),
        forall|k: int| i <= k < j ==> !begins_with_nul(#[trigger] chunk_text(flat, tokens[k])),
    ensures
        format_range(policy, flat, tokens, i, j, st).lines == appended(
            line_begun(st).lines,
            texts(flat, tokens, i, j),
        ),
        !format_range(policy, flat, tokens, i, j, st).in_multline_comment,
{
    let opener = seen(flat, tokens, i);
    let opened = step(policy, st, opener);
    let inside = format_range(policy, flat, tokens, i + 1, j - 1, opened);
    let closer = seen(flat, tokens, j - 1);
    let begun = line_begun(st).lines;
    assert(breaks_alone(flat, tokens, i));
    assert(breaks_alone(flat, tokens, j - 1));
    assert(opened.lines == extended(begun, opener.text));
    lemma_appended_on_one_line(begun, opener.text);
    assert forall|k: int| i + 1 <= k < j - 1 implies (#[trigger] tokens[k]).token_type
        == TokenType::Whitespace || tokens[k].token_type == TokenType::CommentChunk
        || tokens[k].token_type == TokenType::StringChunk || tokens[k].token_type
        == TokenType::Newline by {}
    lemma_payload_span_kept(policy, flat, tokens, i + 1, j - 1, opened);
    lemma_range_then_step(policy, flat, tokens, i + 1, j - 1, opened);
    let closed = step(policy, inside, closer);
    assert(format_range(policy, flat, tokens, i, j, st) == closed);
    assert(closed.lines == extended(inside.lines, closer.text));
    lemma_appended_on_one_line(inside.lines, closer.text);
    lemma_texts_then_one(flat, tokens, i + 1, j - 1);
    lemma_appended_twice(begun, opener.text, texts(flat, tokens, i + 1, j - 1));
    lemma_appended_twice(
        begun,
        opener.text + texts(flat, tokens, i + 1, j - 1),
        closer.text,
    );
    assert(texts(flat, tokens, i, j) == opener.text + texts(flat, tokens, i + 1, j));
    assert(opener.text + (texts(flat, tokens, i + 1, j - 1) + closer.text) =~= (opener.text
        + texts(flat, tokens, i + 1, j - 1)) + closer.text);
}

/// A pass over chunks and one more is the pass over the chunks, then the step
/// for the one more.
pub proof fn lemma_range_then_step(
    policy: FormatPolicy,
    flat: Seq<char>,
    tokens: Seq<TokenChunk>,
    i: int,
    j: int,
    st: FormatState,
)
    requires
        0 <= i <= j < tokens.len(),
    ensures
        format_range(policy, flat, tokens, i, j + 1, st) == step(
            policy,
            format_range(policy, flat, tokens, i, j, st),
            seen(flat, tokens, j),
        ),
    decreases j - i,
{
    let next = step(policy, st, seen(flat, tokens, i));
    if i < j {
        lemma_range_then_step(policy, flat, tokens, i + 1, j, next);
    } else {
        assert(format_range(policy, flat, tokens, i + 1, j + 1, next) == next);
    }
}

/// The texts of chunks and of one more are the texts of the chunks, then the
/// text of the one more.
pub proof fn lemma_texts_then_one(flat: Seq<char>, tokens: Seq<TokenChunk>, i: int, j: int)
    requires
        0 <= i <= j < tokens.len(),
    ensures
        texts(flat, tokens, i, j + 1) == texts(flat, tokens, i, j) + chunk_text(flat, tokens[j]),
    decreases j - i,
{
    if i < j {
        lemma_texts_then_one(flat, tokens, i + 1, j);
        assert(chunk_text(flat, tokens[i]) + (texts(flat, tokens, i + 1, j) + chunk_text(
            flat,
            tokens[j],
        )) =~= (chunk_text(flat, tokens[i]) + texts(flat, tokens, i + 1, j)) + chunk_text(
            flat,
            tokens[j],
        ));
    } else {
        assert(texts(flat, tokens, i + 1, j + 1) =~= Seq::<char>::empty());
        assert(texts(flat, tokens, i, j) =~= Seq::<char>::empty());
        assert(chunk_text(flat, tokens[j]) + Seq::<char>::empty() =~= Seq::<char>::empty()
            + chunk_text(flat, tokens[j]));
    }
}

/// Tokenizing keeps line breaks alone: where every chunk of a store is a
/// line break and nothing else or has no line break in it, the same holds
/// once the rest of the text is tokenized into the store.
pub proof fn lemma_lex_breaks_alone(
    text: Seq<char>,
    p: int,
    depth: nat,
    single: bool,
    store: Store,
)
    requires
        0 <= p <= text.len() <= usize::MAX,
        stack_in_bounds(store.chunks, store.stack),
        forall|k: int| 0 <= k < store.chunks.len() ==> #[trigger] breaks_alone(
            text,
            store.chunks,
            k,
        ),
    ensures
        forall|k: int|
            0 <= k < lex_from(text, p, depth, single, store).chunks.len()
                ==> #[trigger] breaks_alone(
                text,
                lex_from(text, p, depth, single, store).chunks,
                k,
            ),
    decreases text.len() - p,
{
    let last = last_significant(store.chunks, store.chunks.len() as int);
    let lexed = next_lexed(text, p, depth, single, last);
    lemma_token_extent(text, p, depth, single, last);
    lemma_token_breaks_alone(text, p, depth, single, last);
    let next = char_at(text, lexed.end);
    let after = pushed(store.chunks, store.stack, next, p as usize, lexed.end as usize, lexed.kind);
    let grown = Store {
        chunks: after.chunks,
        stack: after.stack,
        invalid: store.invalid || after.invalid,
    };
    lemma_push_appends(store.chunks, store.stack, next, p as usize, lexed.end as usize, lexed.kind);
    let n = store.chunks.len() as int;
    assert forall|k: int| 0 <= k < grown.chunks.len() implies #[trigger] breaks_alone(
        text,
        grown.chunks,
        k,
    ) by {
        if k < n {
            assert(breaks_alone(text, store.chunks, k));
            assert(grown.chunks[k].token_type == store.chunks[k].token_type);
            assert(chunk_text(text, grown.chunks[k]) == chunk_text(text, store.chunks[k]));
        } else {
            assert(grown.chunks[k] == grown.chunks.last());
            let piece = chunk_text(text, grown.chunks[k]);
            assert(piece == text.subrange(p, lexed.end));
            if lexed.kind == TokenType::Newline {
                assert(piece =~= seq!['\n']);
            } else {
                assert forall|i: int| 0 <= i < piece.len() implies #[trigger] piece[i] != '\n' by {
                    assert(piece[i] == text[p + i]);
                }
            }
        }
    }
    assert(stack_in_bounds(grown.chunks, grown.stack));
    if lexed.kind == TokenType::Eof || p < 0 || lexed.end <= p || lexed.end > text.len() {
        assert(lex_from(text, p, depth, single, store) == grown);
    } else {
        assert(lex_from(text, p, depth, single, store) == lex_from(
            text,
            lexed.end,
            lexed.depth,
            lexed.single,
            grown,
        ));
        lemma_lex_breaks_alone(text, lexed.end, lexed.depth, lexed.single, grown);
    }
}

/// No chunk of a tokenized text but a line break holds a line break, and a
/// line break holds nothing else.
pub proof fn lemma_tokens_break_alone(text: Seq<char>, k: int)
    requires
        text.len() <= usize::MAX,
        0 <= k < tokenized(text).chunks.len(),
    ensures
        breaks_alone(text, tokenized(text).chunks, k),
{
    lemma_lex_breaks_alone(
        text,
        0,
        0,
        false,
        Store { chunks: Seq::empty(), stack: Seq::empty(), invalid: false },
    );
}

/// Tokenizing keeps the chunks in line: where the chunks of a store lie one
/// behind the other up to `p`, none of them empty or the end marker, those of
/// the store with the rest of the text tokenized into it lie one behind the
/// other up to where the last one ends, which is the end marker and the only
/// one that is empty.
pub proof fn lemma_lex_contiguous(text: Seq<char>, p: int, depth: nat, single: bool, store: Store)
    requires
        0 <= p <= text.len() <= usize::MAX,
        stack_in_bounds(store.chunks, store.stack),
        contiguous(store.chunks, p),
        tokens_nonempty(store.chunks),
        forall|k: int|
            0 <= k < store.chunks.len() ==> (#[trigger] store.chunks[k]).token_type
                != TokenType::Eof,
    ensures
        tokens_nonempty(lex_from(text, p, depth, single, store).chunks),
        ends_with_eof(lex_from(text, p, depth, single, store).chunks),
        contiguous(
            lex_from(text, p, depth, single, store).chunks,
            lex_from(text, p, depth, single, store).chunks.last().offset + lex_from(
                text,
                p,
                depth,
                single,
                store,
            ).chunks.last().len,
        ),
        lex_from(text, p, depth, single, store).chunks.last().offset + lex_from(
            text,
            p,
            depth,
            single,
            store,
        ).chunks.last().len <= text.len(),
    decreases text.len() - p,
{
    let last = last_significant(store.chunks, store.chunks.len() as int);
    let lexed = next_lexed(text, p, depth, single, last);
    lemma_token_extent(text, p, depth, single, last);
    let next = char_at(text, lexed.end);
    let after = pushed(store.chunks, store.stack, next, p as usize, lexed.end as usize, lexed.kind);
    let grown = Store {
        chunks: after.chunks,
        stack: after.stack,
        invalid: store.invalid || after.invalid,
    };
    lemma_push_appends(store.chunks, store.stack, next, p as usize, lexed.end as usize, lexed.kind);
    lemma_push_keeps_layout(
        store.chunks,
        store.stack,
        next,
        p as usize,
        lexed.end as usize,
        lexed.kind,
    );
    assert(stack_in_bounds(grown.chunks, grown.stack));
    if lexed.kind == TokenType::Eof || p < 0 || lexed.end <= p || lexed.end > text.len() {
        assert(lex_from(text, p, depth, single, store) == grown);
    } else {
        assert(lex_from(text, p, depth, single, store) == lex_from(
            text,
            lexed.end,
            lexed.depth,
            lexed.single,
            grown,
        ));
        assert forall|k: int| 0 <= k < grown.chunks.len() implies (
        #[trigger] grown.chunks[k]).token_type != TokenType::Eof by {
            if k < store.chunks.len() {
                assert(store.chunks[k].token_type != TokenType::Eof);
            } else {
                assert(grown.chunks[k] == grown.chunks.last());
            }
        }
        lemma_lex_contiguous(text, lexed.end, lexed.depth, lexed.single, grown);
    }
}

/// `later` has the lines of `earlier`, all but the last of them unchanged,
/// and may have more.
pub open spec fn goes_on_from(earlier: Seq<Seq<char>>, later: Seq<Seq<char>>) -> bool {
    &&& earlier.len() <= later.len()
    &&& forall|k: int| 0 <= k < earlier.len() - 1 ==> #[trigger] later[k] == earlier[k]
}

/// `goes_on_from`, kept from unfolding where the rules are followed.
#[verifier::opaque]
pub open spec fn going(earlier: Seq<Seq<char>>, later: Seq<Seq<char>>) -> bool {
    goes_on_from(earlier, later)
}

/// Whatever is done to the last line, and whatever line is begun, the lines
/// that were ended before stand as they stood.
pub proof fn lemma_line_ops_go_on(base: Seq<Seq<char>>)
    requires
        base.len() > 0,
    ensures
        going(base, base),
        forall|lines: Seq<Seq<char>>, text: Seq<char>|
            going(base, lines) ==> #[trigger] going(base, extended(lines, text)),
        forall|lines: Seq<Seq<char>>|
            going(base, lines) ==> #[trigger] going(base, stripped(lines)),
        forall|lines: Seq<Seq<char>>|
            going(base, lines) ==> #[trigger] going(base, spaced(lines)),
        forall|lines: Seq<Seq<char>>|
            going(base, lines) ==> #[trigger] going(base, with_new_line(lines)),
{
    reveal(going);
}

/// A token changes no line but the last: the lines that were ended before it
/// stand after it as they stood.
pub proof fn lemma_step_leaves_ended_lines(policy: FormatPolicy, st: FormatState, t: Seen)
    requires
        in_progress(st),
    ensures
        in_progress(step(policy, st, t)),
        goes_on_from(st.lines, step(policy, st, t).lines),
{
    lemma_line_ops_go_on(st.lines);
    assert(going(st.lines, step(policy, st, t).lines));
    assert(step(policy, st, t).stack.len() > 0);
    reveal(going);
}

/// A pass changes no line that was ended before it: the lines of the state
/// that it begins in, all but the last, stand in what it writes.
pub proof fn lemma_ended_lines_stay(
    policy: FormatPolicy,
    flat: Seq<char>,
    tokens: Seq<TokenChunk>,
    i: int,
    st: FormatState,
)
    requires
        in_progress(st),
    ensures
        in_progress(format_from(policy, flat, tokens, i, st)),
        goes_on_from(st.lines, format_from(policy, flat, tokens, i, st).lines),
    decreases tokens.len() - i,
{
    if !(i < 0 || i >= tokens.len() || tokens[i].token_type == TokenType::Eof) {
        let next = step(policy, st, seen(flat, tokens, i));
        lemma_step_leaves_ended_lines(policy, st, seen(flat, tokens, i));
        lemma_ended_lines_stay(policy, flat, tokens, i + 1, next);
        let end = format_from(policy, flat, tokens, i + 1, next).lines;
        assert forall|k: int| 0 <= k < st.lines.len() - 1 implies #[trigger] end[k]
            == st.lines[k] by {
            assert(next.lines[k] == st.lines[k]);
            assert(end[k] == next.lines[k]);
        }
    }
}

/// The part of a pass up to a chunk leaves a line to write on and a group to
/// write in.
pub proof fn lemma_range_in_progress(
    policy: FormatPolicy,
    flat: Seq<char>,
    tokens: Seq<TokenChunk>,
    i: int,
    j: int,
    st: FormatState,
)
    requires
        in_progress(st),
    ensures
        in_progress(format_range(policy, flat, tokens, i, j, st)),
    decreases j - i,
{
    if i < j {
        let next = step(policy, st, seen(flat, tokens, i));
        lemma_step_leaves_ended_lines(policy, st, seen(flat, tokens, i));
        lemma_range_in_progress(policy, flat, tokens, i + 1, j, next);
    }
}

/// A comment of a tokenized text that begins with `/*` is written as it
/// stands in the text, character for character from its opener to its
/// closer, its line breaks as line breaks, behind the indentation of its
/// line where it begins one. `i` is the chunk of the opener and `j - 1` that
/// of the closer; no character `'\0'`, which would end the comment, stands
/// between them.
pub proof fn lemma_block_comment_of_text_kept(
    policy: FormatPolicy,
    text: Seq<char>,
    i: int,
    j: int,
    st: FormatState,
)
    requires
        text.len() <= usize::MAX,
        0 <= i && i + 1 < j <= tokenized(text).chunks.len(),
        in_progress(st),
        !st.in_multline_string,
        tokenized(text).chunks[i].token_type == TokenType::CommentMultiBegin,
        tokenized(text).chunks[j - 1].token_type == TokenType::CommentMultiEnd,
        forall|k: int|
            i < k < j - 1 ==> (#[trigger] tokenized(text).chunks[k]).token_type
                == TokenType::Whitespace || tokenized(text).chunks[k].token_type
                == TokenType::CommentChunk || tokenized(text).chunks[k].token_type
                == TokenType::Newline,
        forall|p: int|
            tokenized(text).chunks[i].offset <= p < tokenized(text).chunks[j - 1].offset
                + tokenized(text).chunks[j - 1].len ==> #[trigger] text[p] != '\0',
    ensures
        ({
            let tokens = tokenized(text).chunks;
            &&& 0 <= tokens[i].offset <= tokens[j - 1].offset + tokens[j - 1].len <= text.len()
            &&& format_range(policy, text, tokens, i, j, st).lines == appended(
                line_begun(st).lines,
                text.subrange(tokens[i].offset as int, tokens[j - 1].offset + tokens[j - 1].len),
            )
        }),
{
    let tokens = tokenized(text).chunks;
    let empty = Store { chunks: Seq::empty(), stack: Seq::empty(), invalid: false };
    lemma_lex_contiguous(text, 0, 0, false, empty);
    lemma_lex_breaks_alone(text, 0, 0, false, empty);
    let total = tokens.last().offset + tokens.last().len;
    let flat = text.subrange(0, total);
    assert forall|k: int| 0 <= k < tokens.len() implies chunk_text(flat, tokens[k]) == chunk_text(
        text,
        tokens[k],
    ) by {
        lemma_chunk_ends_in_text(tokens, total, k);
        assert(chunk_text(flat, tokens[k]) =~= chunk_text(text, tokens[k]));
    }
    assert forall|k: int| i <= k < j implies #[trigger] breaks_alone(flat, tokens, k) by {
        assert(breaks_alone(text, tokens, k));
    }
    assert forall|k: int| i <= k < j implies !begins_with_nul(
        #[trigger] chunk_text(flat, tokens[k]),
    ) by {
        lemma_texts_are_flat_text(flat, tokens, i, k + 1);
        lemma_texts_are_flat_text(flat, tokens, k, j);
        if i < k {
            lemma_texts_are_flat_text(flat, tokens, i, k);
        }
        if k + 1 < j {
            lemma_texts_are_flat_text(flat, tokens, k + 1, j);
        }
        assert(tokens[k].token_type != TokenType::Eof);
        assert(tokens[k].len > 0);
        assert(chunk_text(flat, tokens[k])[0] == text[tokens[k].offset as int]);
    }
    assert forall|k: int| i <= k < j implies #[trigger] seen(text, tokens, k) == seen(
        flat,
        tokens,
        k,
    ) by {
        lemma_chunk_ends_in_text(tokens, total, k);
        assert(tokens[k].token_type != TokenType::Eof);
        assert(tokens[k].len > 0);
        assert(chunk_text(flat, tokens[k]) == chunk_text(text, tokens[k]));
    }
    lemma_block_comment_kept(policy, flat, tokens, i, j, st);
    lemma_texts_are_flat_text(flat, tokens, i, j);
    lemma_range_reads_chunks(policy, text, flat, tokens, i, j, st);
    assert(flat.subrange(tokens[i].offset as int, tokens[j - 1].offset + tokens[j - 1].len)
        =~= text.subrange(tokens[i].offset as int, tokens[j - 1].offset + tokens[j - 1].len));
}

/// Tokenizing gives no piece of a string that goes over several tokens:
/// where a store holds none, it holds none once the rest of the text is
/// tokenized into it.
pub proof fn lemma_lex_no_string_parts(
    text: Seq<char>,
    p: int,
    depth: nat,
    single: bool,
    store: Store,
)
    requires
        0 <= p <= text.len() <= usize::MAX,
        stack_in_bounds(store.chunks, store.stack),
        forall|k: int|
            0 <= k < store.chunks.len() ==> !string_in_parts(
                (#[trigger] store.chunks[k]).token_type,
            ),
    ensures
        forall|k: int|
            0 <= k < lex_from(text, p, depth, single, store).chunks.len() ==> !string_in_parts(
                (#[trigger] lex_from(text, p, depth, single, store).chunks[k]).token_type,
            ),
    decreases text.len() - p,
{
    let last = last_significant(store.chunks, store.chunks.len() as int);
    let lexed = next_lexed(text, p, depth, single, last);
    lemma_token_extent(text, p, depth, single, last);
    lemma_token_is_no_string_part(text, p, depth, single, last);
    let next = char_at(text, lexed.end);
    let after = pushed(store.chunks, store.stack, next, p as usize, lexed.end as usize, lexed.kind);
    let grown = Store {
        chunks: after.chunks,
        stack: after.stack,
        invalid: store.invalid || after.invalid,
    };
    lemma_push_appends(store.chunks, store.stack, next, p as usize, lexed.end as usize, lexed.kind);
    assert(stack_in_bounds(grown.chunks, grown.stack));
    assert forall|k: int| 0 <= k < grown.chunks.len() implies !string_in_parts(
        (#[trigger] grown.chunks[k]).token_type,
    ) by {
        if k < store.chunks.len() {
            assert(!string_in_parts(store.chunks[k].token_type));
        } else {
            assert(grown.chunks[k] == grown.chunks.last());
        }
    }
    if lexed.kind == TokenType::Eof || p < 0 || lexed.end <= p || lexed.end > text.len() {
        assert(lex_from(text, p, depth, single, store) == grown);
    } else {
        assert(lex_from(text, p, depth, single, store) == lex_from(
            text,
            lexed.end,
            lexed.depth,
            lexed.single,
            grown,
        ));
        lemma_lex_no_string_parts(text, lexed.end, lexed.depth, lexed.single, grown);
    }
}

/// A pass that is in no string comes into none where none begins.
pub proof fn lemma_range_outside_strings(
    policy: FormatPolicy,
    flat: Seq<char>,
    tokens: Seq<TokenChunk>,
    i: int,
    j: int,
    st: FormatState,
)
    requires
        0 <= i <= j <= tokens.len(),
        !st.in_multline_string,
        forall|k: int| i <= k < j ==> (#[trigger] tokens[k]).token_type
            != TokenType::StringMultiBegin,
    ensures
        !format_range(policy, flat, tokens, i, j, st).in_multline_string,
    decreases j - i,
{
    if i < j {
        assert(tokens[i].token_type != TokenType::StringMultiBegin);
        lemma_range_outside_strings(
            policy,
            flat,
            tokens,
            i + 1,
            j,
            step(policy, st, seen(flat, tokens, i)),
        );
    }
}

/// A part of a pass can be cut in two at any chunk in it.
pub proof fn lemma_range_splits(
    policy: FormatPolicy,
    flat: Seq<char>,
    tokens: Seq<TokenChunk>,
    i: int,
    m: int,
    j: int,
    st: FormatState,
)
    requires
        i <= m <= j,
    ensures
        format_range(policy, flat, tokens, i, j, st) == format_range(
            policy,
            flat,
            tokens,
            m,
            j,
            format_range(policy, flat, tokens, i, m, st),
        ),
    decreases m - i,
{
    if i < m {
        lemma_range_splits(
            policy,
            flat,
            tokens,
            i + 1,
            m,
            j,
            step(policy, st, seen(flat, tokens, i)),
        );
    }
}

/// What a pass over a tokenized text gives holds each comment that begins
/// with `/*` as the text has it: the lines of the result go on from the lines
/// written before the comment, its line begun, with the characters of the
/// comment behind them from its opener to its closer, a line break in it
/// beginning a new line. `i` is the chunk of the opener and `j - 1` that of
/// the closer; no character `'\0'`, which would end the comment, stands in
/// it.
pub proof fn lemma_block_comment_in_result(policy: FormatPolicy, text: Seq<char>, i: int, j: int)
    requires
        text.len() <= usize::MAX,
        0 <= i && i + 1 < j <= tokenized(text).chunks.len(),
        tokenized(text).chunks[i].token_type == TokenType::CommentMultiBegin,
        tokenized(text).chunks[j - 1].token_type == TokenType::CommentMultiEnd,
        forall|k: int|
            i < k < j - 1 ==> (#[trigger] tokenized(text).chunks[k]).token_type
                == TokenType::Whitespace || tokenized(text).chunks[k].token_type
                == TokenType::CommentChunk || tokenized(text).chunks[k].token_type
                == TokenType::Newline,
        forall|p: int|
            tokenized(text).chunks[i].offset <= p < tokenized(text).chunks[j - 1].offset
                + tokenized(text).chunks[j - 1].len ==> #[trigger] text[p] != '\0',
    ensures
        ({
            let tokens = tokenized(text).chunks;
            let before = format_range(policy, text, tokens, 0, i, initial_state());
            &&& 0 <= tokens[i].offset <= tokens[j - 1].offset + tokens[j - 1].len <= text.len()
            &&& goes_on_from(
                appended(
                    line_begun(before).lines,
                    text.subrange(
                        tokens[i].offset as int,
                        tokens[j - 1].offset + tokens[j - 1].len,
                    ),
                ),
                formatted(policy, text, tokens),
            )
        }),
{
    let tokens = tokenized(text).chunks;
    let empty = Store { chunks: Seq::empty(), stack: Seq::empty(), invalid: false };
    lemma_lex_contiguous(text, 0, 0, false, empty);
    let before = format_range(policy, text, tokens, 0, i, initial_state());
    lemma_range_in_progress(policy, text, tokens, 0, i, initial_state());
    lemma_lex_no_string_parts(text, 0, 0, false, empty);
    assert forall|k: int| 0 <= k < i implies (#[trigger] tokens[k]).token_type
        != TokenType::StringMultiBegin by {
        assert(!string_in_parts(tokens[k].token_type));
    }
    lemma_range_outside_strings(policy, text, tokens, 0, i, initial_state());
    lemma_block_comment_of_text_kept(policy, text, i, j, before);
    lemma_range_splits(policy, text, tokens, 0, i, j, initial_state());
    let behind = format_range(policy, text, tokens, 0, j, initial_state());
    assert forall|k: int| 0 <= k < j implies (#[trigger] tokens[k]).token_type
        != TokenType::Eof by {
        assert(tokens[j - 1].token_type != TokenType::Eof);
    }
    lemma_format_splits(policy, text, tokens, 0, j, initial_state());
    lemma_range_in_progress(policy, text, tokens, 0, j, initial_state());
    lemma_ended_lines_stay(policy, text, tokens, j, behind);
}

/// A pass reads of the flat text only the texts of its chunks: two flat
/// texts in which the chunks have the same texts and the same characters
/// give the same pass.
pub proof fn lemma_range_reads_chunks(
    policy: FormatPolicy,
    a: Seq<char>,
    b: Seq<char>,
    tokens: Seq<TokenChunk>,
    i: int,
    j: int,
    st: FormatState,
)
    requires
        0 <= i <= j <= tokens.len(),
        forall|k: int| i <= k < j ==> #[trigger] seen(a, tokens, k) == seen(b, tokens, k),
    ensures
        format_range(policy, a, tokens, i, j, st) == format_range(policy, b, tokens, i, j, st),
    decreases j - i,
{
    if i < j {
        assert(seen(a, tokens, i) == seen(b, tokens, i));
        lemma_range_reads_chunks(
            policy,
            a,
            b,
            tokens,
            i + 1,
            j,
            step(policy, st, seen(a, tokens, i)),
        );
    }
}

/// The texts of chunks that lie one behind the other are the piece of the
/// flat text that the chunks cover.
pub proof fn lemma_texts_are_flat_text(flat: Seq<char>, tokens: Seq<TokenChunk>, i: int, j: int)
    requires
        0 <= i < j <= tokens.len(),
        contiguous(tokens, flat.len() as int),
    ensures
        tokens[i].offset <= tokens[j - 1].offset + tokens[j - 1].len <= flat.len(),
        texts(flat, tokens, i, j) == flat.subrange(
            tokens[i].offset as int,
            tokens[j - 1].offset + tokens[j - 1].len,
        ),
    decreases j - i,
{
    lemma_chunk_ends_in_text(tokens, flat.len() as int, i);
    lemma_chunk_ends_in_text(tokens, flat.len() as int, j - 1);
    if i + 1 < j {
        lemma_texts_are_flat_text(flat, tokens, i + 1, j);
        assert(tokens[i].offset + tokens[i].len == tokens[i + 1].offset);
        assert(chunk_text(flat, tokens[i]) + flat.subrange(
            tokens[i + 1].offset as int,
            tokens[j - 1].offset + tokens[j - 1].len,
        ) =~= flat.subrange(tokens[i].offset as int, tokens[j - 1].offset + tokens[j - 1].len));
    } else {
        assert(texts(flat, tokens, i + 1, j) =~= Seq::<char>::empty());
        assert(chunk_text(flat, tokens[i]) + Seq::<char>::empty() =~= chunk_text(
            flat,
            tokens[i],
        ));
    }
}

} // verus!
