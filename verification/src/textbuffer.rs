//! The document as the editor holds it: its lines, and what the last
//! tokenization made of them.

use vstd::prelude::*;
use crate::token::TokenChunk;

verus! {

/// A document with the products of its last tokenization.
pub struct TextBuffer {
    /// The text, line by line, without the line breaks.
    pub lines: Vec<Vec<char>>,
    /// Whether the text has been read in.
    pub is_loaded: bool,
    /// Counts the edits to `lines`.
    pub mutation_id: u32,
    /// The value of `mutation_id` that the chunks were made for.
    pub token_chunks_id: u32,
    /// The text of all tokens, one after the other.
    pub flat_text: Vec<char>,
    pub token_chunks: Vec<TokenChunk>,
    /// Whether the delimiters of the last tokenization did not pair up.
    pub was_invalid_pair: bool,
}

impl TextBuffer {
    /// Whether the chunks are out of date: the text is loaded and has been
    /// edited since they were made.
    pub open spec fn stale(&self) -> bool {
        self.token_chunks_id != self.mutation_id && self.is_loaded
    }

    /// A loaded document of the given lines that has not been tokenized yet.
    pub fn from_lines(lines: Vec<Vec<char>>) -> (buffer: Self)
        ensures
            buffer.lines == lines,
            buffer.stale(),
            buffer.flat_text@.len() == 0,
            buffer.token_chunks@.len() == 0,
            !buffer.was_invalid_pair,
    {
        TextBuffer {
            lines,
            is_loaded: true,
            mutation_id: 1,
            token_chunks_id: 0,
            flat_text: Vec::new(),
            token_chunks: Vec::new(),
            was_invalid_pair: false,
        }
    }

    /// Tells whether the document has to be tokenized again. If so, it empties
    /// the flat text and the chunks and marks them as made for the present
    /// text, so that the caller can fill them.
    pub fn needs_token_chunks(&mut self) -> (needed: bool)
        ensures
            needed == old(self).stale(),
            final(self).lines == old(self).lines,
            final(self).is_loaded == old(self).is_loaded,
            final(self).mutation_id == old(self).mutation_id,
            final(self).was_invalid_pair == old(self).was_invalid_pair,
            needed ==> final(self).token_chunks_id == old(self).mutation_id,
            needed ==> final(self).flat_text@.len() == 0,
            needed ==> final(self).token_chunks@.len() == 0,
            !needed ==> *final(self) == *old(self),
    {
        if self.token_chunks_id != self.mutation_id && self.is_loaded {
            self.token_chunks_id = self.mutation_id;
            self.token_chunks.clear();
            self.flat_text.clear();
            return true;
        }
        false
    }
}

} // verus!
