//! Token kinds and the chunk store: the ordered record of the tokens that a
//! tokenizer has produced, with the links between paired delimiters.

use vstd::prelude::*;

verus! {

/// The lexical category of a token.
#[derive(Clone, Copy, Debug, PartialEq, Eq, Structural, Hash)]
pub enum TokenType {
    Whitespace,
    Newline,
    Keyword,
    Flow,
    Fn,
    TypeDef,
    Impl,
    Looping,
    Identifier,
    Call,
    Macro,
    TypeName,
    ThemeName,
    BuiltinType,
    Hash,
    Color,
    Regex,
    String,
    StringMultiBegin,
    StringChunk,
    StringMultiEnd,
    Number,
    Bool,
    CommentLine,
    CommentMultiBegin,
    CommentChunk,
    CommentMultiEnd,
    ParenOpen,
    ParenClose,
    Operator,
    Namespace,
    Splat,
    Delimiter,
    Colon,
    Warning,
    Error,
    Defocus,
    Unexpected,
    Eof,
}

impl TokenType {
    /// Whitespace and line breaks carry no meaning of their own.
    pub open spec fn ignorable(self) -> bool {
        self == TokenType::Whitespace || self == TokenType::Newline
    }

    /// Whether a scan for the neighbouring significant token passes over this kind.
    pub fn should_ignore(&self) -> (ignore: bool)
        ensures
            ignore == self.ignorable(),
    {
        match self {
            TokenType::Whitespace => true,
            TokenType::Newline => true,
            _ => false,
        }
    }
}

/// One classified, contiguous span of the flat text.
#[derive(Clone, Copy, Debug, PartialEq, Eq, Structural)]
pub struct TokenChunk {
    pub token_type: TokenType,
    /// Index of the first character of the token in the flat text.
    pub offset: usize,
    /// Index of the chunk that this delimiter is paired with, once it is known.
    pub pair_token: Option<usize>,
    /// Number of characters of the token.
    pub len: usize,
    /// The character that followed the token when it was produced.
    pub next: char,
}

/// The kind of the last chunk of `chunks[..upto]` that is not ignorable;
/// `Unexpected` where there is none.
pub open spec fn last_significant(chunks: Seq<TokenChunk>, upto: int) -> TokenType
    decreases upto,
{
    if upto <= 0 || upto > chunks.len() {
        TokenType::Unexpected
    } else if !chunks[upto - 1].token_type.ignorable() {
        chunks[upto - 1].token_type
    } else {
        last_significant(chunks, upto - 1)
    }
}

/// What one push does to the chunks, to the stack of open delimiters and to
/// the caller's flag.
pub struct Pushed {
    pub chunks: Seq<TokenChunk>,
    pub stack: Seq<usize>,
    pub invalid: bool,
}

/// The chunk store after one token of kind `kind` over `start..end` has been
/// appended. An opening delimiter goes on the stack; a closing one takes the
/// innermost open delimiter off it and links the two; a closing one that finds
/// the stack empty stays unlinked and reports an invalid pairing.
pub open spec fn pushed(
    chunks: Seq<TokenChunk>,
    stack: Seq<usize>,
    next: char,
    start: usize,
    end: usize,
    kind: TokenType,
) -> Pushed {
    let index = chunks.len() as usize;
    let plain = TokenChunk {
        token_type: kind,
        offset: start,
        pair_token: None,
        len: (end - start) as usize,
        next,
    };
    if kind == TokenType::ParenOpen {
        Pushed { chunks: chunks.push(plain), stack: stack.push(index), invalid: false }
    } else if kind == TokenType::ParenClose && stack.len() > 0 {
        let open = stack.last();
        let opener = TokenChunk { pair_token: Some(index), ..chunks[open as int] };
        let closer = TokenChunk { pair_token: Some(open), ..plain };
        Pushed {
            chunks: chunks.update(open as int, opener).push(closer),
            stack: stack.drop_last(),
            invalid: false,
        }
    } else {
        Pushed { chunks: chunks.push(plain), stack, invalid: kind == TokenType::ParenClose }
    }
}

/// The chunks lie one behind the other in the flat text, from its start to
/// `total`.
pub open spec fn contiguous(chunks: Seq<TokenChunk>, total: int) -> bool {
    &&& chunks.len() == 0 ==> total == 0
    &&& chunks.len() > 0 ==> chunks[0].offset == 0 && chunks.last().offset + chunks.last().len
        == total
    &&& forall|i: int, j: int|
        0 <= i && j == i + 1 && j < chunks.len() ==> (#[trigger] chunks[i]).offset + chunks[i].len
            == (#[trigger] chunks[j]).offset
}

/// The last chunk is the end marker, and it is the only one.
pub open spec fn ends_with_eof(chunks: Seq<TokenChunk>) -> bool {
    &&& chunks.len() > 0
    &&& chunks.last().token_type == TokenType::Eof
    &&& forall|i: int|
        0 <= i < chunks.len() - 1 ==> (#[trigger] chunks[i]).token_type != TokenType::Eof
}

/// The last chunk is the whitespace of one character that ends at `total`:
/// the chunk of the end sentinel.
pub open spec fn ends_with_sentinel(chunks: Seq<TokenChunk>, total: int) -> bool {
    &&& chunks.len() > 0
    &&& chunks.last().token_type == TokenType::Whitespace
    &&& chunks.last().offset == total - 1
    &&& chunks.last().len == 1
}

/// Every token but the end marker has at least one character.
pub open spec fn tokens_nonempty(chunks: Seq<TokenChunk>) -> bool {
    forall|i: int|
        0 <= i < chunks.len() && (#[trigger] chunks[i]).token_type != TokenType::Eof
            ==> chunks[i].len > 0
}

/// Every chunk lies inside the flat text, and every chunk but the end marker
/// has a character.
pub open spec fn formattable(flat: Seq<char>, tokens: Seq<TokenChunk>) -> bool {
    forall|i: int|
        0 <= i < tokens.len() ==> (#[trigger] tokens[i]).offset + tokens[i].len <= flat.len() && (
        tokens[i].token_type != TokenType::Eof ==> tokens[i].len > 0)
}

/// Chunks that lie one behind the other up to the end of the flat text, none
/// but the end marker empty, all lie inside the flat text.
pub proof fn lemma_contiguous_formattable(flat: Seq<char>, chunks: Seq<TokenChunk>)
    requires
        contiguous(chunks, flat.len() as int),
        tokens_nonempty(chunks),
    ensures
        formattable(flat, chunks),
{
    assert forall|i: int| 0 <= i < chunks.len() implies (#[trigger] chunks[i]).offset
        + chunks[i].len <= flat.len() by {
        lemma_chunk_ends_in_text(chunks, flat.len() as int, i);
    }
}

/// A chunk of contiguous chunks ends inside the flat text.
pub proof fn lemma_chunk_ends_in_text(chunks: Seq<TokenChunk>, total: int, i: int)
    requires
        contiguous(chunks, total),
        0 <= i < chunks.len(),
    ensures
        chunks[i].offset + chunks[i].len <= total,
    decreases chunks.len() - i,
{
    if i < chunks.len() - 1 {
        lemma_chunk_ends_in_text(chunks, total, i + 1);
        assert(chunks[i].offset + chunks[i].len == chunks[i + 1].offset);
    } else {
        assert(chunks[i] == chunks.last());
    }
}

/// Every entry of the stack is the index of a chunk.
pub open spec fn stack_in_bounds(chunks: Seq<TokenChunk>, stack: Seq<usize>) -> bool {
    forall|k: int| 0 <= k < stack.len() ==> (#[trigger] stack[k]) < chunks.len()
}

/// A push appends one chunk of the given kind and extent, and leaves kind
/// and extent of the chunks before it as they were.
pub proof fn lemma_push_appends(
    chunks: Seq<TokenChunk>,
    stack: Seq<usize>,
    next: char,
    start: usize,
    end: usize,
    kind: TokenType,
)
    requires
        stack_in_bounds(chunks, stack),
        start <= end,
    ensures
        ({
            let after = pushed(chunks, stack, next, start, end, kind).chunks;
            &&& after.len() == chunks.len() + 1
            &&& after.last().token_type == kind
            &&& after.last().offset == start
            &&& after.last().len == end - start
            &&& forall|i: int|
                0 <= i < chunks.len() ==> (#[trigger] after[i]).token_type == chunks[i].token_type
                    && after[i].offset == chunks[i].offset && after[i].len == chunks[i].len
        }),
{
    if kind == TokenType::ParenClose && stack.len() > 0 {
        assert(stack.last() == stack[stack.len() - 1]);
    }
}

/// Chunks that are contiguous and without empty tokens stay so when a push
/// appends a token that begins where the last one ended and that is the end
/// marker or has a character.
pub proof fn lemma_push_keeps_layout(
    chunks: Seq<TokenChunk>,
    stack: Seq<usize>,
    next: char,
    start: usize,
    end: usize,
    kind: TokenType,
)
    requires
        stack_in_bounds(chunks, stack),
        start <= end,
        contiguous(chunks, start as int),
        tokens_nonempty(chunks),
        kind == TokenType::Eof || start < end,
    ensures
        contiguous(pushed(chunks, stack, next, start, end, kind).chunks, end as int),
        tokens_nonempty(pushed(chunks, stack, next, start, end, kind).chunks),
{
    let after = pushed(chunks, stack, next, start, end, kind).chunks;
    lemma_push_appends(chunks, stack, next, start, end, kind);
    let n = chunks.len() as int;
    assert forall|i: int, j: int| 0 <= i && j == i + 1 && j < after.len() implies (
    #[trigger] after[i]).offset + after[i].len == (#[trigger] after[j]).offset by {
        if j < n {
            assert(chunks[i].offset + chunks[i].len == chunks[j].offset);
            assert(after[j].offset == chunks[j].offset);
            assert(after[i].offset == chunks[i].offset);
        } else {
            assert(chunks.last() == chunks[n - 1]);
            assert(after[n - 1].offset == chunks[n - 1].offset);
            assert(after[n] == after.last());
        }
    }
    if n > 0 {
        assert(after[0].offset == chunks[0].offset);
    }
    assert forall|i: int|
        0 <= i < after.len() && (#[trigger] after[i]).token_type
            != TokenType::Eof implies after[i].len > 0 by {
        if i < n {
            assert(chunks[i].token_type != TokenType::Eof);
        } else {
            assert(after[n] == after.last());
        }
    }
}

impl TokenChunk {
    /// The kind of the most recent chunk that is neither whitespace nor a line
    /// break, or `Unexpected` when every chunk so far is one of the two.
    pub fn scan_last_token(token_chunks: &Vec<TokenChunk>) -> (kind: TokenType)
        ensures
            kind == last_significant(token_chunks@, token_chunks@.len() as int),
    {
        let mut prev_tok_index: usize = token_chunks.len();
        while prev_tok_index > 0
            invariant
                prev_tok_index <= token_chunks@.len(),
                last_significant(token_chunks@, token_chunks@.len() as int) == last_significant(
                    token_chunks@,
                    prev_tok_index as int,
                ),
            decreases prev_tok_index,
        {
            let tt = token_chunks[prev_tok_index - 1].token_type;
            if !tt.should_ignore() {
                return tt;
            }
            prev_tok_index -= 1;
        }
        TokenType::Unexpected
    }

    /// Appends the chunk of one token and keeps the delimiter pairing up to
    /// date. Returns `true` exactly when the token is a closing delimiter with
    /// no open delimiter left to pair it with.
    pub fn push_with_pairing(
        token_chunks: &mut Vec<TokenChunk>,
        pair_stack: &mut Vec<usize>,
        next: char,
        offset: usize,
        offset2: usize,
        token_type: TokenType,
    ) -> (invalid_pair: bool)
        requires
            offset <= offset2,
            stack_in_bounds(old(token_chunks)@, old(pair_stack)@),
        ensures
            final(token_chunks)@ == pushed(
                old(token_chunks)@,
                old(pair_stack)@,
                next,
                offset,
                offset2,
                token_type,
            ).chunks,
            final(pair_stack)@ == pushed(
                old(token_chunks)@,
                old(pair_stack)@,
                next,
                offset,
                offset2,
                token_type,
            ).stack,
            invalid_pair == pushed(
                old(token_chunks)@,
                old(pair_stack)@,
                next,
                offset,
                offset2,
                token_type,
            ).invalid,
            stack_in_bounds(final(token_chunks)@, final(pair_stack)@),
    {
        let index: usize = token_chunks.len();
        let mut invalid_pair = false;
        let mut pair_token: Option<usize> = None;
        if token_type == TokenType::ParenOpen {
            pair_stack.push(index);
        } else if token_type == TokenType::ParenClose {
            match pair_stack.pop() {
                Some(other) => {
                    let opener = token_chunks[other];
                    token_chunks.set(
                        other,
                        TokenChunk {
                            token_type: opener.token_type,
                            offset: opener.offset,
                            pair_token: Some(index),
                            len: opener.len,
                            next: opener.next,
                        },
                    );
                    pair_token = Some(other);
                },
                None => {
                    invalid_pair = true;
                },
            }
        }
        token_chunks.push(
            TokenChunk { token_type, offset, pair_token, len: offset2 - offset, next },
        );
        invalid_pair
    }
}

} // verus!
