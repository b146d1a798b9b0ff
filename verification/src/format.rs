//! What a formatting pass works with: the buffer of rewritten lines that it
//! fills, and the parser that walks the token chunks with one token of
//! lookahead and one of lookbehind.

use vstd::prelude::*;
use vstd::slice::slice_subrange;
use crate::token::{TokenChunk, TokenType};

verus! {

/// A line of `n` spaces.
pub open spec fn spaces(n: nat) -> Seq<char> {
    Seq::new(n, |i: int| ' ')
}

/// The lines with `text` appended to the last one.
pub open spec fn extended(lines: Seq<Seq<char>>, text: Seq<char>) -> Seq<Seq<char>> {
    lines.update(lines.len() - 1, lines.last() + text)
}

/// The lines with `n` spaces appended to the last one.
pub open spec fn indented(lines: Seq<Seq<char>>, n: nat) -> Seq<Seq<char>> {
    extended(lines, spaces(n))
}

/// Whether the last line ends in a space.
pub open spec fn ends_in_space(lines: Seq<Seq<char>>) -> bool {
    lines.last().len() > 0 && lines.last().last() == ' '
}

/// The lines without the space that the last one ends in, if it ends in one.
pub open spec fn stripped(lines: Seq<Seq<char>>) -> Seq<Seq<char>> {
    if ends_in_space(lines) {
        lines.update(lines.len() - 1, lines.last().drop_last())
    } else {
        lines
    }
}

/// The lines with a space at the end of the last one, added unless one is
/// there.
pub open spec fn spaced(lines: Seq<Seq<char>>) -> Seq<Seq<char>> {
    if ends_in_space(lines) {
        lines
    } else {
        extended(lines, seq![' '])
    }
}

/// The lines with an empty line behind them.
pub open spec fn with_new_line(lines: Seq<Seq<char>>) -> Seq<Seq<char>> {
    lines.push(Seq::empty())
}

/// The rewritten text, line by line.
pub struct FormatOutput {
    pub out_lines: Vec<Vec<char>>,
}

impl FormatOutput {
    /// The lines as sequences of characters.
    pub open spec fn lines(&self) -> Seq<Seq<char>> {
        Seq::new(self.out_lines@.len(), |i: int| self.out_lines@[i]@)
    }

    /// An output without a line. A line has to be started before anything can
    /// be written.
    pub fn new() -> (out: FormatOutput)
        ensures
            out.lines().len() == 0,
    {
        FormatOutput { out_lines: Vec::new() }
    }

    /// Appends `indent_depth` spaces to the last line.
    pub fn indent(&mut self, indent_depth: usize)
        requires
            old(self).lines().len() > 0,
        ensures
            final(self).lines() == indented(old(self).lines(), indent_depth as nat),
    {
        let last = self.out_lines.len() - 1;
        let mut line: Vec<char> = Vec::new();
        std::mem::swap(&mut line, &mut self.out_lines[last]);
        let ghost before = line@;
        let mut i: usize = 0;
        while i < indent_depth
            invariant
                i <= indent_depth,
                line@ == before + spaces(i as nat),
            decreases indent_depth - i,
        {
            line.push(' ');
            assert(line@ =~= before + spaces((i + 1) as nat));
            i += 1;
        }
        self.out_lines.set(last, line);
        assert(self.lines() =~= indented(old(self).lines(), indent_depth as nat));
    }

    /// Takes the space off the end of the last line, if it ends in one.
    pub fn strip_space(&mut self)
        requires
            old(self).lines().len() > 0,
        ensures
            final(self).lines() == stripped(old(self).lines()),
    {
        let last = self.out_lines.len() - 1;
        let len = self.out_lines[last].len();
        assert(self.lines().last() == self.out_lines@[last as int]@);
        if len > 0 && self.out_lines[last][len - 1] == ' ' {
            let mut line: Vec<char> = Vec::new();
            std::mem::swap(&mut line, &mut self.out_lines[last]);
            line.pop();
            self.out_lines.set(last, line);
            assert(self.lines() =~= stripped(old(self).lines()));
        }
    }

    /// Starts a new, empty line.
    pub fn new_line(&mut self)
        ensures
            final(self).lines() == with_new_line(old(self).lines()),
    {
        self.out_lines.push(Vec::new());
        assert(self.lines() =~= with_new_line(old(self).lines()));
    }

    /// Appends the characters of `chunks` to the last line.
    pub fn extend(&mut self, chunks: &[char])
        requires
            old(self).lines().len() > 0,
        ensures
            final(self).lines() == extended(old(self).lines(), chunks@),
    {
        let last = self.out_lines.len() - 1;
        let mut line: Vec<char> = Vec::new();
        std::mem::swap(&mut line, &mut self.out_lines[last]);
        let ghost before = line@;
        let mut i: usize = 0;
        while i < chunks.len()
            invariant
                i <= chunks@.len(),
                line@ == before + chunks@.subrange(0, i as int),
            decreases chunks@.len() - i,
        {
            line.push(chunks[i]);
            assert(line@ =~= before + chunks@.subrange(0, i + 1));
            i += 1;
        }
        assert(chunks@.subrange(0, chunks@.len() as int) =~= chunks@);
        self.out_lines.set(last, line);
        assert(self.lines() =~= extended(old(self).lines(), chunks@));
    }

    /// Whether the last line ends in a space.
    pub fn ends_in_space(&self) -> (yes: bool)
        requires
            self.lines().len() > 0,
        ensures
            yes == ends_in_space(self.lines()),
    {
        let last = self.out_lines.len() - 1;
        let len = self.out_lines[last].len();
        assert(self.lines().last() == self.out_lines@[last as int]@);
        len > 0 && self.out_lines[last][len - 1] == ' '
    }

    /// Appends a space to the last line unless it ends in one.
    pub fn add_space(&mut self)
        requires
            old(self).lines().len() > 0,
        ensures
            final(self).lines() == spaced(old(self).lines()),
    {
        let last = self.out_lines.len() - 1;
        let len = self.out_lines[last].len();
        assert(self.lines().last() == self.out_lines@[last as int]@);
        if !(len > 0 && self.out_lines[last][len - 1] == ' ') {
            let mut line: Vec<char> = Vec::new();
            std::mem::swap(&mut line, &mut self.out_lines[last]);
            let ghost before = line@;
            line.push(' ');
            assert(line@ =~= before + seq![' ']);
            self.out_lines.set(last, line);
            assert(self.lines() =~= spaced(old(self).lines()));
        }
    }
}

/// The text of a chunk.
pub open spec fn chunk_text(flat: Seq<char>, chunk: TokenChunk) -> Seq<char> {
    flat.subrange(chunk.offset as int, chunk.offset + chunk.len)
}

/// The character that stands for a chunk in the spacing rules: its only
/// character, or the space that it begins with; the end sentinel for any other
/// chunk.
pub open spec fn chunk_char(flat: Seq<char>, chunk: TokenChunk) -> char {
    if chunk.len == 1 || flat[chunk.offset as int] == ' ' {
        flat[chunk.offset as int]
    } else {
        '\0'
    }
}

/// Whether the string with this text, its opening quote first, has its
/// closing quote at `i` or behind: a quote like the first, not taken by a
/// backslash, which takes the character behind it with it.
pub open spec fn string_closed_from(text: Seq<char>, i: int) -> bool
    decreases text.len() - i,
{
    if i < 1 || i >= text.len() {
        false
    } else if text[i] == '\\' {
        i + 2 <= text.len() && string_closed_from(text, i + 2)
    } else if text[i] == text[0] {
        true
    } else {
        string_closed_from(text, i + 1)
    }
}

/// Whether the slash at `i` closes the regular expression with this text: it
/// does unless a backslash stands in front of it that is not itself behind a
/// backslash.
pub open spec fn slash_closes(text: Seq<char>, i: int) -> bool {
    text[i] == '/' && !(text[i - 1] == '\\' && (i < 2 || text[i - 2] != '\\'))
}

/// Whether the regular expression with this text, its opening slash first,
/// has its closing slash at `i` or behind.
pub open spec fn regex_closed_from(text: Seq<char>, i: int) -> bool
    decreases text.len() - i,
{
    if i < 1 || i >= text.len() {
        false
    } else {
        slash_closes(text, i) || regex_closed_from(text, i + 1)
    }
}

/// A token of this kind and text runs to the end of its line: it is a string
/// or a regular expression without its closing mark.
pub open spec fn runs_to_line_end(kind: TokenType, text: Seq<char>) -> bool {
    (kind == TokenType::String && !string_closed_from(text, 1)) || (kind == TokenType::Regex
        && !regex_closed_from(text, 1))
}

/// Whether the string with this text, its opening quote first, has its
/// closing quote.
pub fn string_closed(text: &[char]) -> (closed: bool)
    ensures
        closed == string_closed_from(text@, 1),
{
    let mut i: usize = 1;
    while i < text.len()
        invariant
            1 <= i,
            string_closed_from(text@, 1) == string_closed_from(text@, i as int),
        decreases text@.len() - i,
    {
        if text[i] == '\\' {
            if text.len() - i < 2 {
                return false;
            }
            i += 2;
        } else if text[i] == text[0] {
            return true;
        } else {
            i += 1;
        }
    }
    false
}

/// Whether the regular expression with this text, its opening slash first,
/// has its closing slash.
pub fn regex_closed(text: &[char]) -> (closed: bool)
    ensures
        closed == regex_closed_from(text@, 1),
{
    let mut i: usize = 1;
    while i < text.len()
        invariant
            1 <= i,
            regex_closed_from(text@, 1) == regex_closed_from(text@, i as int),
        decreases text@.len() - i,
    {
        if text[i] == '/' && !(text[i - 1] == '\\' && (i < 2 || text[i - 2] != '\\')) {
            return true;
        }
        i += 1;
    }
    false
}

/// The kind of chunk `i`, or `Unexpected` where there is no such chunk.
pub open spec fn kind_at(tokens: Seq<TokenChunk>, i: int) -> TokenType {
    if 0 <= i < tokens.len() {
        tokens[i].token_type
    } else {
        TokenType::Unexpected
    }
}

/// The character that stands for chunk `i`, or the end sentinel where there
/// is no such chunk.
pub open spec fn char_of(flat: Seq<char>, tokens: Seq<TokenChunk>, i: int) -> char {
    if 0 <= i < tokens.len() {
        chunk_char(flat, tokens[i])
    } else {
        '\0'
    }
}

/// A walk over token chunks that shows the current chunk and its neighbours.
pub struct TokenParser<'a> {
    pub tokens: &'a Vec<TokenChunk>,
    pub flat_text: &'a Vec<char>,
    /// The current chunk, once `advance` has returned `true`.
    pub index: usize,
    /// The chunk that `advance` goes to next.
    pub next_index: usize,
}

impl<'a> TokenParser<'a> {
    /// A parser in front of the first chunk.
    pub fn new(flat_text: &'a Vec<char>, token_chunks: &'a Vec<TokenChunk>) -> (parser: Self)
        ensures
            parser.tokens == token_chunks,
            parser.flat_text == flat_text,
            parser.index == 0,
            parser.next_index == 0,
    {
        TokenParser { tokens: token_chunks, flat_text, index: 0, next_index: 0 }
    }

    /// Goes to the next chunk. Returns `false`, and stays, when there is none.
    pub fn advance(&mut self) -> (moved: bool)
        ensures
            final(self).tokens == old(self).tokens,
            final(self).flat_text == old(self).flat_text,
            moved == (old(self).next_index < old(self).tokens@.len()),
            moved ==> final(self).index == old(self).next_index && final(self).next_index == old(
                self,
            ).next_index + 1,
            !moved ==> final(self).index == old(self).index && final(self).next_index == old(
                self,
            ).next_index,
    {
        if self.next_index >= self.tokens.len() {
            return false;
        }
        self.index = self.next_index;
        self.next_index += 1;
        true
    }

    /// The kind of the chunk before the current one; `Unexpected` at the
    /// first.
    pub fn prev_type(&self) -> (kind: TokenType)
        requires
            self.index < self.tokens@.len(),
        ensures
            kind == kind_at(self.tokens@, self.index - 1),
    {
        if self.index > 0 {
            self.tokens[self.index - 1].token_type
        } else {
            TokenType::Unexpected
        }
    }

    /// The kind of the current chunk.
    pub fn cur_type(&self) -> (kind: TokenType)
        requires
            self.index < self.tokens@.len(),
        ensures
            kind == self.tokens@[self.index as int].token_type,
    {
        self.tokens[self.index].token_type
    }

    /// The kind of the chunk after the current one; `Unexpected` at the last.
    pub fn next_type(&self) -> (kind: TokenType)
        requires
            self.index < self.tokens@.len(),
        ensures
            kind == kind_at(self.tokens@, self.index + 1),
    {
        if self.index < self.tokens.len() - 1 {
            self.tokens[self.index + 1].token_type
        } else {
            TokenType::Unexpected
        }
    }

    /// The character that stands for the chunk before the current one.
    pub fn prev_char(&self) -> (c: char)
        requires
            self.index < self.tokens@.len(),
            self.index > 0 ==> self.tokens@[self.index - 1].offset < self.flat_text@.len(),
        ensures
            c == char_of(self.flat_text@, self.tokens@, self.index - 1),
    {
        if self.index > 0 {
            let len = self.tokens[self.index - 1].len;
            let ch = self.flat_text[self.tokens[self.index - 1].offset];
            if len == 1 || ch == ' ' {
                return ch;
            }
        }
        '\0'
    }

    /// The character that stands for the current chunk.
    pub fn cur_char(&self) -> (c: char)
        requires
            self.index < self.tokens@.len(),
            self.tokens@[self.index as int].offset < self.flat_text@.len(),
        ensures
            c == chunk_char(self.flat_text@, self.tokens@[self.index as int]),
    {
        let len = self.tokens[self.index].len;
        let ch = self.flat_text[self.tokens[self.index].offset];
        if len == 1 || ch == ' ' {
            return ch;
        }
        '\0'
    }

    /// The text of the current chunk.
    pub fn cur_chunk(&self) -> (text: &[char])
        requires
            self.index < self.tokens@.len(),
            self.tokens@[self.index as int].offset + self.tokens@[self.index as int].len
                <= self.flat_text@.len(),
        ensures
            text@ == chunk_text(self.flat_text@, self.tokens@[self.index as int]),
    {
        let offset = self.tokens[self.index].offset;
        let len = self.tokens[self.index].len;
        assert(self.flat_text@.len() == self.flat_text.len());
        slice_subrange(self.flat_text.as_slice(), offset, offset + len)
    }
}

} // verus!
