//! The tokenizer of the contract language: it takes one token at a time off a
//! cursor, as the grammar says, and appends the token's text to a flat buffer.

use vstd::prelude::*;
use crate::cursor::{char_at, group_pieces, is_digit, joined, lines_view, TokenizerState};
use crate::pairing::{
    balanced,
    lemma_pairing_at_end,
    lemma_pairing_in_bounds,
    lemma_pairing_of_empty,
    lemma_push_keeps_pairing,
    pairing_inv,
    pairs_linked,
};
use crate::solgrammar::{
    closes_regex,
    comment_token,
    escape_end,
    is_keyword_char,
    is_width,
    keyword_hit,
    lemma_keyword_hit_chars,
    lemma_run_end_bounds,
    lemma_sentinel_is_alone,
    next_lexed,
    number_end,
    punctuation_token,
    regex_end,
    lex_from,
    run_end,
    slash_token,
    string_end,
    name_kind,
    tokenized,
    CharClass,
    Store,
};
use crate::text::decimal_value;
use crate::textbuffer::TextBuffer;
use crate::token::{
    contiguous,
    ends_with_eof,
    ends_with_sentinel,
    formattable,
    last_significant,
    lemma_contiguous_formattable,
    lemma_push_appends,
    lemma_push_keeps_layout,
    tokens_nonempty,
    TokenChunk,
    TokenType,
};

verus! {

broadcast use group_pieces;

/// The state that the tokenizer carries from one token to the next.
pub struct SOLTokenizer {
    /// Whether the open comment is one that ends with its line.
    pub comment_single: bool,
    /// How many comments are open; 0 outside of any.
    pub comment_depth: usize,
}

/// Whether `c` belongs to `class`.
fn in_class(class: CharClass, c: char) -> (yes: bool)
    ensures
        yes == class.holds(c),
{
    match class {
        CharClass::Space => c == ' ',
        CharClass::Blank => c == ' ' || c == '\t',
        CharClass::Ident => c >= '0' && c <= '9' || c >= 'a' && c <= 'z' || c >= 'A' && c <= 'Z'
            || c == '_' || c == '$',
        CharClass::Digit => c >= '0' && c <= '9',
        CharClass::Decimal => c >= '0' && c <= '9' || c == '_',
        CharClass::Hex => c >= '0' && c <= '9' || c >= 'a' && c <= 'f' || c >= 'A' && c <= 'F',
        CharClass::HexNumber => c >= '0' && c <= '9' || c >= 'a' && c <= 'f' || c >= 'A' && c
            <= 'F' || c == '_',
        CharClass::Binary => c == '0' || c == '1' || c == '_',
        CharClass::RegexFlag => c == 'g' || c == 'i' || c == 'm' || c == 's' || c == 'u' || c
            == 'y',
    }
}

/// Appends the character that the cursor has just taken as its current one.
fn push_cur<'a>(state: &TokenizerState<'a>, chunk: &mut Vec<char>)
    requires
        state.wf(),
        0 < state.pos(),
        state.cur == state.text()[state.pos() - 1],
    ensures
        final(chunk)@ == old(chunk)@ + state.text().subrange(state.pos() - 1, state.pos()),
{
    chunk.push(state.cur);
    assert(chunk@ =~= old(chunk)@ + state.text().subrange(state.pos() - 1, state.pos()));
}

/// Appends the next character and moves the cursor over it.
fn take<'a>(state: &mut TokenizerState<'a>, chunk: &mut Vec<char>)
    requires
        old(state).wf(),
        !old(state).eof,
    ensures
        final(state).wf(),
        final(state).lines == old(state).lines,
        final(state).cur == old(state).cur,
        final(state).prev == old(state).prev,
        final(state).pos() == old(state).pos() + 1,
        final(chunk)@ == old(chunk)@ + old(state).text().subrange(
            old(state).pos(),
            old(state).pos() + 1,
        ),
{
    chunk.push(state.next);
    state.advance();
    assert(chunk@ =~= old(chunk)@ + old(state).text().subrange(
        old(state).pos(),
        old(state).pos() + 1,
    ));
}

/// Appends the next character and moves the cursor over it, the cursor
/// keeping the two characters before its new place.
fn take_with_prev<'a>(state: &mut TokenizerState<'a>, chunk: &mut Vec<char>)
    requires
        old(state).wf(),
        !old(state).eof,
    ensures
        final(state).wf(),
        final(state).lines == old(state).lines,
        final(state).cur == old(state).next,
        final(state).prev == old(state).cur,
        final(state).pos() == old(state).pos() + 1,
        final(chunk)@ == old(chunk)@ + old(state).text().subrange(
            old(state).pos(),
            old(state).pos() + 1,
        ),
{
    chunk.push(state.next);
    state.advance_with_prev();
    assert(chunk@ =~= old(chunk)@ + old(state).text().subrange(
        old(state).pos(),
        old(state).pos() + 1,
    ));
}

/// Takes the longest run of characters of `class` that begins at the cursor.
/// Returns whether it took any.
#[verifier::loop_isolation(false)]
fn take_run<'a>(
    state: &mut TokenizerState<'a>,
    chunk: &mut Vec<char>,
    class: CharClass,
) -> (any: bool)
    requires
        old(state).wf(),
    ensures
        final(state).wf(),
        final(state).lines == old(state).lines,
        final(state).cur == old(state).cur,
        final(state).prev == old(state).prev,
        final(state).pos() == run_end(old(state).text(), old(state).pos(), class),
        final(state).pos() >= old(state).pos(),
        final(chunk)@ == old(chunk)@ + old(state).text().subrange(
            old(state).pos(),
            final(state).pos(),
        ),
        any == (final(state).pos() > old(state).pos()),
{
    let mut any = false;
    while in_class(class, state.next)
        invariant
            state.wf(),
            state.lines == old(state).lines,
            state.cur == old(state).cur,
            state.prev == old(state).prev,
            old(state).pos() <= state.pos() <= state.text().len(),
            run_end(state.text(), old(state).pos(), class) == run_end(
                state.text(),
                state.pos(),
                class,
            ),
            chunk@ == old(chunk)@ + state.text().subrange(old(state).pos(), state.pos()),
            any == (state.pos() > old(state).pos()),
        decreases state.text().len() - state.pos(),
    {
        any = true;
        take(state, chunk);
    }
    any
}

/// What holds when a text is tokenized in full: the flat text is the text,
/// the store is the one that the grammar gives for it and is in order, the
/// chunks lie one behind the other, none but the end marker empty, and end
/// with the whitespace of the end sentinel and the end marker.
pub open spec fn tokenizing_done(
    text: Seq<char>,
    flat: Seq<char>,
    chunks: Seq<TokenChunk>,
    stack: Seq<usize>,
    invalid: bool,
) -> bool {
    &&& flat == text
    &&& pairing_inv(chunks, stack, invalid)
    &&& tokenized(text) == (Store { chunks, stack, invalid })
    &&& contiguous(chunks, text.len() as int)
    &&& tokens_nonempty(chunks)
    &&& ends_with_eof(chunks)
    &&& ends_with_sentinel(chunks.drop_last(), text.len() as int)
}

/// A new tokenizer, a cursor at the start of its text, an empty flat text and
/// an empty store stand between two rounds: the first round can begin.
pub proof fn lemma_round_begins(text: Seq<char>)
    ensures
        pairing_inv(Seq::<TokenChunk>::empty(), Seq::<usize>::empty(), false),
        contiguous(Seq::<TokenChunk>::empty(), 0),
        tokens_nonempty(Seq::<TokenChunk>::empty()),
        text.subrange(0, 0) == Seq::<char>::empty(),
        tokenized(text) == lex_from(
            text,
            0,
            0,
            false,
            Store { chunks: Seq::empty(), stack: Seq::empty(), invalid: false },
        ),
{
    lemma_pairing_of_empty();
    assert(text.subrange(0, 0) =~= Seq::<char>::empty());
}

impl SOLTokenizer {
    /// A tokenizer that stands outside of any comment.
    pub fn new() -> (tokenizer: SOLTokenizer)
        ensures
            tokenizer.comment_depth == 0,
            !tokenizer.comment_single,
    {
        SOLTokenizer { comment_single: false, comment_depth: 0 }
    }

    /// Tokenizes the document again if it has been edited since its chunks
    /// were made and has at least one line: the flat text becomes the lines
    /// joined by line breaks, with the end sentinel behind them, the chunks
    /// become those of the grammar, and the pairing flag says whether the
    /// delimiters are unbalanced. The chunks end with the whitespace of the
    /// end sentinel and the end marker. A document that needs no new chunks
    /// stays as it is.
    pub fn update_token_chunks(text_buffer: &mut TextBuffer)
        ensures
            final(text_buffer).lines == old(text_buffer).lines,
            final(text_buffer).is_loaded == old(text_buffer).is_loaded,
            final(text_buffer).mutation_id == old(text_buffer).mutation_id,
            !old(text_buffer).stale() ==> *final(text_buffer) == *old(text_buffer),
            old(text_buffer).stale() ==> final(text_buffer).token_chunks_id == old(
                text_buffer,
            ).mutation_id,
            old(text_buffer).stale() && old(text_buffer).lines@.len() == 0 ==> {
                &&& final(text_buffer).flat_text@.len() == 0
                &&& final(text_buffer).token_chunks@.len() == 0
                &&& final(text_buffer).was_invalid_pair == old(text_buffer).was_invalid_pair
            },
            old(text_buffer).stale() && old(text_buffer).lines@.len() > 0 ==> {
                let text = joined(lines_view(old(text_buffer).lines@)).push('\0');
                let store = tokenized(text);
                &&& final(text_buffer).flat_text@ == text
                &&& final(text_buffer).token_chunks@ == store.chunks
                &&& final(text_buffer).was_invalid_pair == (store.invalid || store.stack.len() > 0)
                &&& ends_with_eof(final(text_buffer).token_chunks@)
                &&& ends_with_sentinel(
                    final(text_buffer).token_chunks@.drop_last(),
                    text.len() as int,
                )
                &&& tokens_nonempty(final(text_buffer).token_chunks@)
                &&& contiguous(final(text_buffer).token_chunks@, text.len() as int)
                &&& formattable(
                    final(text_buffer).flat_text@,
                    final(text_buffer).token_chunks@,
                )
                &&& final(text_buffer).was_invalid_pair == !balanced(
                    final(text_buffer).token_chunks@,
                )
                &&& balanced(final(text_buffer).token_chunks@) ==> pairs_linked(
                    final(text_buffer).token_chunks@,
                )
            },
    {
        if text_buffer.needs_token_chunks() && text_buffer.lines.len() > 0 {
            let mut state = TokenizerState::new(&text_buffer.lines);
            let mut tokenizer = SOLTokenizer::new();
            let mut pair_stack: Vec<usize> = Vec::new();
            let mut invalid = false;
            let ghost text = state.text();
            proof {
                assert(text_buffer.flat_text@ =~= Seq::<char>::empty());
                assert(text_buffer.token_chunks@ =~= Seq::<TokenChunk>::empty());
                assert(pair_stack@ =~= Seq::<usize>::empty());
                lemma_round_begins(text);
            }
            loop
                invariant_except_break
                    tokenizer.between_rounds(
                        state,
                        text_buffer.flat_text@,
                        text_buffer.token_chunks@,
                        pair_stack@,
                        invalid,
                    ),
                invariant
                    state.wf(),
                    state.lines == &text_buffer.lines,
                    text_buffer.lines == old(text_buffer).lines,
                    text_buffer.is_loaded == old(text_buffer).is_loaded,
                    text_buffer.mutation_id == old(text_buffer).mutation_id,
                    text_buffer.token_chunks_id == old(text_buffer).mutation_id,
                    text == state.text(),
                    text == joined(lines_view(old(text_buffer).lines@)).push('\0'),
                ensures
                    text_buffer.lines == old(text_buffer).lines,
                    text_buffer.is_loaded == old(text_buffer).is_loaded,
                    text_buffer.mutation_id == old(text_buffer).mutation_id,
                    text_buffer.token_chunks_id == old(text_buffer).mutation_id,
                    tokenizing_done(
                        text,
                        text_buffer.flat_text@,
                        text_buffer.token_chunks@,
                        pair_stack@,
                        invalid,
                    ),
                decreases text.len() - state.pos(),
            {
                let token_type = tokenizer.next_chunk(
                    &mut state,
                    &mut text_buffer.flat_text,
                    &mut text_buffer.token_chunks,
                    &mut pair_stack,
                    &mut invalid,
                );
                if token_type == TokenType::Eof {
                    break ;
                }
            }
            text_buffer.was_invalid_pair = invalid || pair_stack.len() > 0;
            proof {
                lemma_pairing_at_end(text_buffer.token_chunks@, pair_stack@, invalid);
                lemma_contiguous_formattable(text_buffer.flat_text@, text_buffer.token_chunks@);
            }
        }
    }

    /// What holds between two rounds of tokenizing the text of `state` into
    /// a flat text, a chunk store and a flag: the flat text is the text up to
    /// the cursor, the chunks lie one behind the other up to there, none of
    /// them empty or the end marker, the store is in order, and tokenizing the
    /// rest gives what tokenizing the whole text gives.
    pub open spec fn between_rounds(
        &self,
        state: TokenizerState,
        flat: Seq<char>,
        chunks: Seq<TokenChunk>,
        stack: Seq<usize>,
        invalid: bool,
    ) -> bool {
        let text = state.text();
        &&& flat == text.subrange(0, state.pos())
        &&& pairing_inv(chunks, stack, invalid)
        &&& contiguous(chunks, state.pos())
        &&& tokens_nonempty(chunks)
        &&& forall|i: int| 0 <= i < chunks.len() ==> (#[trigger] chunks[i]).token_type
            != TokenType::Eof
        &&& state.pos() == text.len() ==> ends_with_sentinel(chunks, text.len() as int)
        &&& tokenized(text) == lex_from(
            text,
            state.pos(),
            self.comment_depth as nat,
            self.comment_single,
            Store { chunks, stack, invalid },
        )
    }

    /// One round of tokenizing: takes the next token off the cursor, appends
    /// its text to the flat text and its chunk to the store, and notes an
    /// invalid pairing in the flag. Between two rounds a caller may look at
    /// what there is so far. The round that returns `Eof` is the last: with it
    /// the text is tokenized in full.
    pub fn next_chunk<'a>(
        &mut self,
        state: &mut TokenizerState<'a>,
        flat_text: &mut Vec<char>,
        token_chunks: &mut Vec<TokenChunk>,
        pair_stack: &mut Vec<usize>,
        invalid: &mut bool,
    ) -> (kind: TokenType)
        requires
            old(state).wf(),
            old(self).between_rounds(
                *old(state),
                old(flat_text)@,
                old(token_chunks)@,
                old(pair_stack)@,
                *old(invalid),
            ),
        ensures
            final(state).wf(),
            final(state).lines == old(state).lines,
            kind == final(token_chunks)@.last().token_type,
            final(token_chunks)@.len() == old(token_chunks)@.len() + 1,
            kind == TokenType::Eof <==> old(state).eof,
            kind != TokenType::Eof ==> final(state).pos() > old(state).pos()
                && final(self).between_rounds(
                *final(state),
                final(flat_text)@,
                final(token_chunks)@,
                final(pair_stack)@,
                *final(invalid),
            ),
            kind == TokenType::Eof ==> tokenizing_done(
                old(state).text(),
                final(flat_text)@,
                final(token_chunks)@,
                final(pair_stack)@,
                *final(invalid),
            ),
    {
        let ghost text = state.text();
        let ghost before = token_chunks@;
        let ghost stack_before = pair_stack@;
        let ghost flag_before = *invalid;
        let ghost from = state.pos();
        proof {
            assert(text.len() > 0 && text.last() == '\0');
            if from < text.len() {
                lemma_sentinel_is_alone(
                    text,
                    from,
                    self.comment_depth as nat,
                    self.comment_single,
                    last_significant(before, before.len() as int),
                );
            }
        }
        let offset = flat_text.len();
        let token_type = self.next_token(state, flat_text, token_chunks);
        let offset2 = flat_text.len();
        proof {
            assert(text.subrange(0, from) + text.subrange(from, state.pos()) =~= text.subrange(
                0,
                state.pos(),
            ));
            lemma_pairing_in_bounds(before, stack_before, flag_before);
            lemma_push_appends(before, stack_before, state.next, offset, offset2, token_type);
            lemma_push_keeps_layout(before, stack_before, state.next, offset, offset2, token_type);
        }
        if TokenChunk::push_with_pairing(
            token_chunks,
            pair_stack,
            state.next,
            offset,
            offset2,
            token_type,
        ) {
            *invalid = true;
        }
        proof {
            assert(token_chunks@.len() == token_chunks.len());
            if token_type == TokenType::Eof {
                assert(token_chunks@.drop_last().last() == before.last());
                assert(text.subrange(0, text.len() as int) =~= text);
            }
            lemma_push_keeps_pairing(
                before,
                stack_before,
                flag_before,
                state.next,
                offset,
                offset2,
                token_type,
            );
        }
        token_type
    }

    /// Takes the next token off the cursor and appends its text to `chunk`.
    /// Kind and extent of the token are those that the grammar gives for the
    /// place of the cursor, for the comment state of the tokenizer and for the
    /// last significant token among `token_chunks`. At the end of the text it
    /// returns `Eof`, takes nothing and leaves the cursor as it is, as often
    /// as it is called; anywhere else it takes at least one character.
    pub fn next_token<'a>(
        &mut self,
        state: &mut TokenizerState<'a>,
        chunk: &mut Vec<char>,
        token_chunks: &Vec<TokenChunk>,
    ) -> (kind: TokenType)
        requires
            old(state).wf(),
        ensures
            final(state).wf(),
            final(state).lines == old(state).lines,
            ({
                let lexed = next_lexed(
                    old(state).text(),
                    old(state).pos(),
                    old(self).comment_depth as nat,
                    old(self).comment_single,
                    last_significant(token_chunks@, token_chunks@.len() as int),
                );
                &&& kind == lexed.kind
                &&& final(state).pos() == lexed.end
                &&& final(self).comment_depth == lexed.depth
                &&& final(self).comment_single == lexed.single
                &&& final(chunk)@ == old(chunk)@ + old(state).text().subrange(
                    old(state).pos(),
                    lexed.end,
                )
            }),
            kind == TokenType::Eof <==> old(state).eof,
            kind == TokenType::Eof ==> *final(state) == *old(state) && final(chunk)@ == old(chunk)@,
            kind != TokenType::Eof ==> final(state).pos() > old(state).pos(),
            kind == TokenType::Eof ==> final(self).comment_depth == 0,
    {
        reveal(next_lexed);
        if self.comment_depth > 0 {
            if state.next == '\0' {
                self.comment_depth = 0;
            } else {
                return self.comment_token(state, chunk);
            }
        }
        if state.eof {
            return TokenType::Eof;
        }
        state.advance_with_cur();
        push_cur(state, chunk);
        let c = state.cur;
        if c == '\0' {
            TokenType::Whitespace
        } else if c == '\n' {
            TokenType::Newline
        } else if c == ' ' || c == '\t' {
            take_run(state, chunk, CharClass::Blank);
            TokenType::Whitespace
        } else if c == '/' {
            self.slash_token(state, chunk, token_chunks)
        } else if c == '"' || c == '\'' {
            Self::string_token(state, chunk)
        } else if c >= '0' && c <= '9' {
            Self::parse_sol_number_tail(state, chunk);
            TokenType::Number
        } else if c == '_' || c == '$' {
            Self::parse_sol_ident_tail(state, chunk);
            if state.next == '(' {
                TokenType::Call
            } else {
                TokenType::Identifier
            }
        } else if c >= 'a' && c <= 'z' || c >= 'A' && c <= 'Z' {
            let keyword_type = Self::parse_sol_keyword(state, chunk, token_chunks);
            if Self::parse_sol_ident_tail(state, chunk) {
                if state.next == '(' {
                    TokenType::Call
                } else {
                    TokenType::Identifier
                }
            } else {
                keyword_type
            }
        } else {
            Self::punctuation_token(state, chunk)
        }
    }

    /// The token inside a comment. The cursor does not stand at the end
    /// sentinel.
    #[verifier::loop_isolation(false)]
    fn comment_token<'a>(
        &mut self,
        state: &mut TokenizerState<'a>,
        chunk: &mut Vec<char>,
    ) -> (kind: TokenType)
        requires
            old(state).wf(),
            old(self).comment_depth > 0,
            old(state).next != '\0',
        ensures
            final(state).wf(),
            final(state).lines == old(state).lines,
            ({
                let lexed = comment_token(
                    old(state).text(),
                    old(state).pos(),
                    old(state).pos(),
                    old(self).comment_depth as nat,
                    old(self).comment_single,
                );
                &&& kind == lexed.kind
                &&& final(state).pos() == lexed.end
                &&& final(self).comment_depth == lexed.depth
                &&& final(self).comment_single == lexed.single
                &&& final(chunk)@ == old(chunk)@ + old(state).text().subrange(
                    old(state).pos(),
                    lexed.end,
                )
            }),
            kind != TokenType::Eof,
            final(state).pos() > old(state).pos(),
    {
        let ghost text = state.text();
        let ghost start = state.pos();
        let ghost single = self.comment_single;
        let ghost whole = comment_token(text, start, start, self.comment_depth as nat, single);
        let begin = chunk.len();
        loop
            invariant
                state.wf(),
                state.lines == old(state).lines,
                text == state.text(),
                self.comment_single == single,
                self.comment_depth > 0,
                start <= state.pos() <= text.len(),
                start == state.pos() ==> state.next != '\0',
                whole == comment_token(
                    text,
                    start,
                    state.pos(),
                    self.comment_depth as nat,
                    single,
                ),
                chunk@ == old(chunk)@ + text.subrange(start, state.pos()),
                begin == old(chunk)@.len(),
            decreases text.len() - state.pos(),
        {
            if state.next == '\0' {
                self.comment_depth = 0;
                return TokenType::CommentChunk;
            } else if state.next == '*' {
                take(state, chunk);
                if state.next == '/' {
                    self.comment_depth -= 1;
                    take(state, chunk);
                    if self.comment_depth == 0 {
                        return TokenType::CommentMultiEnd;
                    }
                }
            } else if state.next == '\n' {
                if self.comment_single {
                    self.comment_depth = 0;
                }
                if chunk.len() - begin > 0 {
                    return TokenType::CommentChunk;
                }
                take(state, chunk);
                return TokenType::Newline;
            } else if state.next == ' ' {
                if chunk.len() - begin > 0 {
                    return TokenType::CommentChunk;
                }
                proof {
                    lemma_run_end_bounds(text, state.pos() + 1, CharClass::Space);
                }
                take_run(state, chunk, CharClass::Space);
                return TokenType::Whitespace;
            } else {
                take(state, chunk);
            }
        }
    }

    /// The token that began with the slash that the cursor has just taken: a
    /// comment opener, a regular expression or an operator.
    #[verifier::loop_isolation(false)]
    fn slash_token<'a>(
        &mut self,
        state: &mut TokenizerState<'a>,
        chunk: &mut Vec<char>,
        token_chunks: &Vec<TokenChunk>,
    ) -> (kind: TokenType)
        requires
            old(state).wf(),
            old(self).comment_depth == 0,
            0 < old(state).pos(),
            old(state).cur == '/',
            old(state).text()[old(state).pos() - 1] == '/',
        ensures
            final(state).wf(),
            final(state).lines == old(state).lines,
            ({
                let lexed = slash_token(
                    old(state).text(),
                    old(state).pos() - 1,
                    old(self).comment_single,
                    last_significant(token_chunks@, token_chunks@.len() as int),
                );
                &&& kind == lexed.kind
                &&& final(state).pos() == lexed.end
                &&& final(self).comment_depth == lexed.depth
                &&& final(self).comment_single == lexed.single
                &&& final(chunk)@ == old(chunk)@ + old(state).text().subrange(
                    old(state).pos(),
                    lexed.end,
                )
            }),
            kind != TokenType::Eof,
            final(state).pos() >= old(state).pos(),
    {
        if state.next == '/' {
            take(state, chunk);
            self.comment_depth = 1;
            self.comment_single = true;
            return TokenType::CommentLine;
        } else if state.next == '*' {
            take(state, chunk);
            self.comment_single = false;
            self.comment_depth = 1;
            return TokenType::CommentMultiBegin;
        }
        let is_regexp = match TokenChunk::scan_last_token(token_chunks) {
            TokenType::ParenOpen
            | TokenType::Keyword
            | TokenType::Operator
            | TokenType::Delimiter
            | TokenType::Colon
            | TokenType::Looping => true,
            _ => false,
        };
        if is_regexp {
            let ghost text = state.text();
            let ghost from = state.pos();
            while !state.eof && !state.next_is_end() && state.next != '\n'
                invariant
                    state.wf(),
                    state.lines == old(state).lines,
                    text == state.text(),
                    0 < from <= state.pos() <= text.len(),
                    regex_end(text, from) == regex_end(text, state.pos()),
                    state.cur == text[state.pos() - 1],
                    state.pos() > from ==> state.prev == text[state.pos() - 2],
                    text[from - 1] == '/',
                    chunk@ == old(chunk)@ + text.subrange(from, state.pos()),
                decreases text.len() - state.pos(),
            {
                if state.next != '/' || state.prev != '\\' && state.cur == '\\' && state.next
                    == '/' {
                    take_with_prev(state, chunk);
                } else {
                    assert(closes_regex(text, state.pos()));
                    take(state, chunk);
                    take_run(state, chunk, CharClass::RegexFlag);
                    return TokenType::Regex;
                }
            }
            return TokenType::Regex;
        } else if state.next == '=' {
            take(state, chunk);
        }
        TokenType::Operator
    }

    /// The string that began with the quote that the cursor has just taken.
    #[verifier::loop_isolation(false)]
    fn string_token<'a>(state: &mut TokenizerState<'a>, chunk: &mut Vec<char>) -> (kind: TokenType)
        requires
            old(state).wf(),
            old(state).cur == '"' || old(state).cur == '\'',
        ensures
            final(state).wf(),
            final(state).lines == old(state).lines,
            kind == TokenType::String,
            final(state).pos() == string_end(
                old(state).text(),
                old(state).pos(),
                old(state).cur,
            ),
            final(state).pos() >= old(state).pos(),
            final(chunk)@ == old(chunk)@ + old(state).text().subrange(
                old(state).pos(),
                final(state).pos(),
            ),
    {
        let end_char = state.cur;
        state.prev = '\0';
        let ghost text = state.text();
        let ghost from = state.pos();
        while !state.eof && !state.next_is_end() && state.next != '\n'
            invariant
                state.wf(),
                state.lines == old(state).lines,
                text == state.text(),
                0 <= from <= state.pos() <= text.len(),
                string_end(text, from, end_char) == string_end(text, state.pos(), end_char),
                state.cur != '\\',
                end_char == '"' || end_char == '\'',
                chunk@ == old(chunk)@ + text.subrange(from, state.pos()),
            decreases text.len() - state.pos(),
        {
            proof {
                lemma_run_end_bounds(text, state.pos() + 2, CharClass::Hex);
            }
            if state.next == '\\' {
                Self::parse_sol_escape_char(state, chunk);
            } else if state.next != end_char || state.prev != '\\' && state.cur == '\\'
                && state.next == end_char {
                take_with_prev(state, chunk);
            } else {
                take(state, chunk);
                return TokenType::String;
            }
        }
        TokenType::String
    }

    /// The token that began with the punctuation character that the cursor
    /// has just taken.
    fn punctuation_token<'a>(
        state: &mut TokenizerState<'a>,
        chunk: &mut Vec<char>,
    ) -> (kind: TokenType)
        requires
            old(state).wf(),
            0 < old(state).pos(),
            old(state).cur == old(state).text()[old(state).pos() - 1],
        ensures
            final(state).wf(),
            final(state).lines == old(state).lines,
            ({
                let lexed = punctuation_token(old(state).text(), old(state).pos() - 1, false);
                &&& kind == lexed.kind
                &&& final(state).pos() == lexed.end
                &&& final(chunk)@ == old(chunk)@ + old(state).text().subrange(
                    old(state).pos(),
                    lexed.end,
                )
            }),
            kind != TokenType::Eof,
            final(state).pos() >= old(state).pos(),
    {
        let c = state.cur;
        if c == ':' {
            TokenType::Colon
        } else if c == '*' {
            if state.next == '=' {
                take(state, chunk);
                TokenType::Operator
            } else if state.next == '/' {
                take(state, chunk);
                TokenType::Unexpected
            } else {
                TokenType::Operator
            }
        } else if c == '+' {
            if state.next == '=' || state.next == '+' {
                take(state, chunk);
            }
            TokenType::Operator
        } else if c == '-' {
            if state.next == '>' || state.next == '=' || state.next == '-' {
                take(state, chunk);
            }
            TokenType::Operator
        } else if c == '=' {
            if state.next == '>' {
                take(state, chunk);
            } else if state.next == '=' {
                take(state, chunk);
                if state.next == '=' {
                    take(state, chunk);
                }
            }
            TokenType::Operator
        } else if c == '.' {
            if state.next == '.' {
                take(state, chunk);
                return TokenType::Splat;
            }
            TokenType::Operator
        } else if c == ';' {
            if state.next == '.' {
                take(state, chunk);
            }
            TokenType::Delimiter
        } else if c == '&' {
            if state.next == '&' || state.next == '=' {
                take(state, chunk);
            }
            TokenType::Operator
        } else if c == '|' {
            if state.next == '|' || state.next == '=' {
                take(state, chunk);
            }
            TokenType::Operator
        } else if c == '!' {
            if state.next == '=' {
                take(state, chunk);
                if state.next == '=' {
                    take(state, chunk);
                }
            }
            TokenType::Operator
        } else if c == '<' {
            if state.next == '=' || state.next == '<' {
                take(state, chunk);
            }
            TokenType::Operator
        } else if c == '>' {
            if state.next == '=' || state.next == '>' {
                take(state, chunk);
            }
            TokenType::Operator
        } else if c == ',' {
            TokenType::Delimiter
        } else if c == '(' || c == '{' || c == '[' {
            TokenType::ParenOpen
        } else if c == ')' || c == '}' || c == ']' {
            TokenType::ParenClose
        } else {
            TokenType::Operator
        }
    }

    /// Takes the identifier characters at the cursor. Returns whether there
    /// were any.
    pub fn parse_sol_ident_tail<'a>(
        state: &mut TokenizerState<'a>,
        chunk: &mut Vec<char>,
    ) -> (any: bool)
        requires
            old(state).wf(),
        ensures
            final(state).wf(),
            final(state).lines == old(state).lines,
            final(state).cur == old(state).cur,
            final(state).prev == old(state).prev,
            final(state).pos() == run_end(old(state).text(), old(state).pos(), CharClass::Ident),
            final(state).pos() >= old(state).pos(),
            final(chunk)@ == old(chunk)@ + old(state).text().subrange(
                old(state).pos(),
                final(state).pos(),
            ),
            any == (final(state).pos() > old(state).pos()),
    {
        take_run(state, chunk, CharClass::Ident)
    }

    /// Takes the escape sequence at the cursor, if a backslash stands there,
    /// and returns whether one did.
    pub fn parse_sol_escape_char<'a>(
        state: &mut TokenizerState<'a>,
        chunk: &mut Vec<char>,
    ) -> (found: bool)
        requires
            old(state).wf(),
        ensures
            final(state).wf(),
            final(state).lines == old(state).lines,
            final(state).cur == old(state).cur,
            final(state).prev == old(state).prev,
            found == (old(state).next == '\\'),
            found ==> final(state).pos() == escape_end(old(state).text(), old(state).pos()),
            found ==> final(state).pos() > old(state).pos(),
            !found ==> final(state).pos() == old(state).pos(),
            final(chunk)@ == old(chunk)@ + old(state).text().subrange(
                old(state).pos(),
                final(state).pos(),
            ),
    {
        if state.next == '\\' {
            take(state, chunk);
            if state.next == 'u' {
                take(state, chunk);
                take_run(state, chunk, CharClass::Hex);
            } else if state.next != '\n' && state.next != '\0' {
                take(state, chunk);
            }
            return true;
        }
        false
    }

    /// Takes what follows the first digit of a number: hexadecimal digits
    /// behind `x`, binary digits behind `b`, or decimal digits with at most one
    /// point among them. Underscores may stand between the digits.
    pub fn parse_sol_number_tail<'a>(state: &mut TokenizerState<'a>, chunk: &mut Vec<char>)
        requires
            old(state).wf(),
        ensures
            final(state).wf(),
            final(state).lines == old(state).lines,
            final(state).pos() == number_end(old(state).text(), old(state).pos()),
            final(state).pos() >= old(state).pos(),
            final(chunk)@ == old(chunk)@ + old(state).text().subrange(
                old(state).pos(),
                final(state).pos(),
            ),
    {
        if state.next == 'x' {
            take(state, chunk);
            take_run(state, chunk, CharClass::HexNumber);
        } else if state.next == 'b' {
            take(state, chunk);
            take_run(state, chunk, CharClass::Binary);
        } else {
            take_run(state, chunk, CharClass::Decimal);
            if state.next == '.' {
                take(state, chunk);
                take_run(state, chunk, CharClass::Decimal);
            }
        }
    }
    /// Looks the word that began with the letter just taken up in the keyword
    /// table, and takes the rest of the first keyword that stands at the
    /// cursor, with the digits of a width where the keyword has one. It takes
    /// nothing else: what is appended is written with lower case letters and
    /// digits, and the cursor's next character is the first one that was not
    /// appended. Returns the kind that the table gives, or the kind of a name
    /// where no keyword stands there. Whether the word goes on behind what was
    /// taken, and so is a name after all, is for the caller to see.
    pub fn parse_sol_keyword<'a>(
        state: &mut TokenizerState<'a>,
        chunk: &mut Vec<char>,
        token_chunks: &Vec<TokenChunk>,
    ) -> (kind: TokenType)
        requires
            old(state).wf(),
        ensures
            final(state).wf(),
            final(state).lines == old(state).lines,
            final(state).cur == old(state).cur,
            final(state).prev == old(state).prev,
            ({
                let found = keyword_hit(old(state).text(), old(state).pos(), old(state).cur);
                &&& kind != TokenType::Eof
                &&& kind == found.kind
                &&& final(state).pos() == old(state).pos() + found.len
                &&& final(state).pos() >= old(state).pos()
                &&& final(chunk)@ == old(chunk)@ + old(state).text().subrange(
                    old(state).pos(),
                    final(state).pos(),
                )
            }),
            forall|i: int|
                old(state).pos() <= i < final(state).pos() ==> is_keyword_char(
                    #[trigger] old(state).text()[i],
                ),
            final(state).next == char_at(old(state).text(), final(state).pos()),
    {
        proof {
            lemma_keyword_hit_chars(state.text(), state.pos(), state.cur);
        }
        Self::match_keyword(state, chunk, token_chunks)
    }

    /// Goes through the keyword table for the letter just taken.
    fn match_keyword<'a>(
        state: &mut TokenizerState<'a>,
        chunk: &mut Vec<char>,
        _token_chunks: &Vec<TokenChunk>,
    ) -> (kind: TokenType)
        requires
            old(state).wf(),
        ensures
            final(state).wf(),
            final(state).lines == old(state).lines,
            final(state).cur == old(state).cur,
            final(state).prev == old(state).prev,
            ({
                let found = keyword_hit(old(state).text(), old(state).pos(), old(state).cur);
                &&& kind != TokenType::Eof
                &&& kind == found.kind
                &&& final(state).pos() == old(state).pos() + found.len
                &&& final(state).pos() >= old(state).pos()
                &&& final(chunk)@ == old(chunk)@ + old(state).text().subrange(
                    old(state).pos(),
                    final(state).pos(),
                )
            }),
    {
        reveal(keyword_hit);
        let c = state.cur;
        if c == 'a' {
            if state.keyword(chunk, "ssembly") {
                return TokenType::Flow;
            }
            if state.keyword(chunk, "ddress") {
                return TokenType::TypeName;
            }
            if state.keyword(chunk, "bi") {
                return TokenType::Keyword;
            }
        } else if c == 'b' {
            if state.keyword(chunk, "ytes") {
                return Self::parse_sol_width(state, chunk, 1, true);
            }
            if state.keyword(chunk, "reak") {
                return TokenType::Flow;
            }
            if state.keyword(chunk, "lock") {
                return TokenType::Keyword;
            }
            if state.keyword(chunk, "ool") {
                return TokenType::TypeName;
            }
        } else if c == 'c' {
            if state.keyword(chunk, "ontract") {
                return TokenType::Keyword;
            }
            if state.keyword(chunk, "onstant") {
                return TokenType::Keyword;
            }
            if state.keyword(chunk, "ontinue") {
                return TokenType::Flow;
            }
        } else if c == 'd' {
            if state.keyword(chunk, "elete") {
                return TokenType::Keyword;
            }
        } else if c == 'e' {
            if state.keyword(chunk, "xperimental") {
                return TokenType::Flow;
            }
            if state.keyword(chunk, "xternal") {
                return TokenType::Keyword;
            }
            if state.keyword(chunk, "vent") {
                return TokenType::Fn;
            }
            if state.keyword(chunk, "lse") {
                return TokenType::Flow;
            }
            if state.keyword(chunk, "num") {
                return TokenType::Keyword;
            }
            if state.keyword(chunk, "mit") {
                return TokenType::Flow;
            }
        } else if c == 'f' {
            if state.keyword(chunk, "unction") {
                return TokenType::Fn;
            }
            if state.keyword(chunk, "inally") {
                return TokenType::Fn;
            }
            if state.keyword(chunk, "alse") {
                return TokenType::Bool;
            }
            if state.keyword(chunk, "or") {
                return TokenType::Looping;
            }
        } else if c == 'i' {
            if state.keyword(chunk, "nterface") {
                return TokenType::Keyword;
            }
            if state.keyword(chunk, "nternal") {
                return TokenType::Keyword;
            }
            if state.keyword(chunk, "mport") {
                return TokenType::TypeDef;
            }
            if state.keyword(chunk, "nt") {
                return Self::parse_sol_width(state, chunk, 8, false);
            }
            if state.keyword(chunk, "s") {
                return TokenType::Flow;
            }
            if state.keyword(chunk, "f") {
                return TokenType::Flow;
            }
        } else if c == 'm' {
            if state.keyword(chunk, "odifier") {
                return TokenType::Fn;
            }
            if state.keyword(chunk, "apping") {
                return TokenType::Call;
            }
            if state.keyword(chunk, "emory") {
                return TokenType::Keyword;
            }
            if state.keyword(chunk, "sg") {
                return TokenType::Keyword;
            }
        } else if c == 'n' {
            if state.keyword(chunk, "ew") {
                return TokenType::Keyword;
            }
        } else if c == 'p' {
            if state.keyword(chunk, "rivate") {
                return TokenType::Keyword;
            }
            if state.keyword(chunk, "ublic") {
                return TokenType::Keyword;
            }
            if state.keyword(chunk, "ragma") {
                return TokenType::Keyword;
            }
            if state.keyword(chunk, "ure") {
                return TokenType::Call;
            }
        } else if c == 'r' {
            if state.keyword(chunk, "eturns") {
                return TokenType::Flow;
            }
            if state.keyword(chunk, "eturn") {
                return TokenType::Flow;
            }
        } else if c == 's' {
            if state.keyword(chunk, "olidity") {
                return TokenType::Flow;
            }
            if state.keyword(chunk, "truct") {
                return TokenType::TypeName;
            }
            if state.keyword(chunk, "tring") {
                return TokenType::TypeName;
            }
            if state.keyword(chunk, "uper") {
                return TokenType::Keyword;
            }
        } else if c == 't' {
            if state.keyword(chunk, "ypeof") {
                return TokenType::Keyword;
            }
            if state.keyword(chunk, "hrow") {
                return TokenType::Flow;
            }
            if state.keyword(chunk, "his") {
                return TokenType::Keyword;
            }
            if state.keyword(chunk, "rue") {
                return TokenType::Bool;
            }
            if state.keyword(chunk, "ry") {
                return TokenType::Keyword;
            }
        } else if c == 'u' {
            if state.keyword(chunk, "sing") {
                return TokenType::Fn;
            }
            if state.keyword(chunk, "int") {
                return Self::parse_sol_width(state, chunk, 8, false);
            }
        } else if c == 'v' {
            if state.keyword(chunk, "iew") {
                return TokenType::Call;
            }
        } else if c == 'w' {
            if state.keyword(chunk, "hile") {
                return TokenType::Looping;
            }
        }
        if state.next == '(' {
            TokenType::Call
        } else {
            TokenType::Identifier
        }
    }

    /// Takes the digits at the cursor, which follow the stem of a sized type
    /// name. The word is a type name where the digits write a width in steps
    /// of `unit`, or where `bare` allows the stem alone and there is no digit.
    #[verifier::loop_isolation(false)]
    fn parse_sol_width<'a>(
        state: &mut TokenizerState<'a>,
        chunk: &mut Vec<char>,
        unit: usize,
        bare: bool,
    ) -> (kind: TokenType)
        requires
            old(state).wf(),
            unit == 1 || unit == 8,
        ensures
            final(state).wf(),
            final(state).lines == old(state).lines,
            final(state).cur == old(state).cur,
            final(state).prev == old(state).prev,
            final(state).pos() == run_end(old(state).text(), old(state).pos(), CharClass::Digit),
            final(state).pos() >= old(state).pos(),
            final(chunk)@ == old(chunk)@ + old(state).text().subrange(
                old(state).pos(),
                final(state).pos(),
            ),
            kind == if (bare && final(state).pos() == old(state).pos()) || is_width(
                old(state).text().subrange(old(state).pos(), final(state).pos()),
                unit as nat,
            ) {
                TokenType::TypeName
            } else {
                name_kind(char_at(old(state).text(), final(state).pos()))
            },
    {
        let ghost text = state.text();
        let ghost from = state.pos();
        let mut value: usize = 0;
        let mut any = false;
        let mut lead_zero = false;
        while state.next_is_digit()
            invariant
                state.wf(),
                state.lines == old(state).lines,
                state.cur == old(state).cur,
                state.prev == old(state).prev,
                text == state.text(),
                0 <= from <= state.pos() <= text.len(),
                run_end(text, from, CharClass::Digit)
                    == run_end(text, state.pos(), CharClass::Digit),
                chunk@ == old(chunk)@ + text.subrange(from, state.pos()),
                forall|i: int| from <= i < state.pos() ==> is_digit(#[trigger] text[i]),
                any == (state.pos() > from),
                lead_zero == (state.pos() > from && text[from] == '0'),
                value <= 1000,
                value < 1000 ==> value == decimal_value(text.subrange(from, state.pos())),
                value == 1000 ==> decimal_value(text.subrange(from, state.pos())) >= 1000,
            decreases text.len() - state.pos(),
        {
            proof {
                let longer = text.subrange(from, state.pos() + 1);
                assert(longer.drop_last() =~= text.subrange(from, state.pos()));
                assert(longer.last() == text[state.pos()]);
            }
            let digit: usize = (state.next as u32 - '0' as u32) as usize;
            if !any && digit == 0 {
                lead_zero = true;
            }
            any = true;
            value = if value >= 100 {
                1000
            } else {
                value * 10 + digit
            };
            take(state, chunk);
        }
        proof {
            let digits = text.subrange(from, state.pos());
            assert forall|i: int| 0 <= i < digits.len() implies is_digit(#[trigger] digits[i]) by {
                assert(is_digit(text[from + i]));
            }
            assert(decimal_value(text.subrange(from, from)) == 0);
        }
        let valid = any && !lead_zero && value >= unit && value <= 32 * unit && value % unit == 0;
        if (bare && !any) || valid {
            TokenType::TypeName
        } else if state.next == '(' {
            TokenType::Call
        } else {
            TokenType::Identifier
        }
    }
}

} // verus!
