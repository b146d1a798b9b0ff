//! The character cursor: it walks the lines of a document as one stream of
//! characters, the lines joined by line breaks, and shows the previous, the
//! current and the next character.

use vstd::prelude::*;
use vstd::string::*;

verus! {

/// The lines as sequences of characters.
pub open spec fn lines_view(lines: Seq<Vec<char>>) -> Seq<Seq<char>> {
    Seq::new(lines.len(), |i: int| lines[i]@)
}

/// The lines joined into one text, a line break between each two.
pub open spec fn joined(lines: Seq<Seq<char>>) -> Seq<char>
    decreases lines.len(),
{
    if lines.len() == 0 {
        Seq::empty()
    } else if lines.len() == 1 {
        lines[0]
    } else {
        joined(lines.drop_last()) + seq!['\n'] + lines.last()
    }
}

/// Where line `i` begins in the joined text.
pub open spec fn line_start(lines: Seq<Seq<char>>, i: int) -> nat
    decreases i,
{
    if i <= 0 || i > lines.len() {
        0
    } else {
        line_start(lines, i - 1) + lines[i - 1].len() + 1
    }
}

/// The character at `i`, or the end sentinel where the text has none there.
pub open spec fn char_at(text: Seq<char>, i: int) -> char {
    if 0 <= i < text.len() {
        text[i]
    } else {
        '\0'
    }
}

/// `word` stands in `text` at `pos`.
pub open spec fn stands_at(text: Seq<char>, pos: int, word: Seq<char>) -> bool {
    0 <= pos && pos + word.len() <= text.len() && text.subrange(pos, pos + word.len()) == word
}

/// `c` is a decimal digit.
pub open spec fn is_digit(c: char) -> bool {
    '0' <= c <= '9'
}

/// `c` is a letter of ASCII.
pub open spec fn is_letter(c: char) -> bool {
    'a' <= c <= 'z' || 'A' <= c <= 'Z'
}

/// `c` is a hexadecimal digit.
pub open spec fn is_hex(c: char) -> bool {
    '0' <= c <= '9' || 'a' <= c <= 'f' || 'A' <= c <= 'F'
}

/// Where a line begins does not depend on the lines after it.
pub proof fn lemma_line_start_of_prefix(lines: Seq<Seq<char>>, i: int)
    requires
        0 <= i < lines.len(),
    ensures
        line_start(lines.drop_last(), i) == line_start(lines, i),
    decreases i,
{
    if i > 0 {
        lemma_line_start_of_prefix(lines, i - 1);
    }
}

/// The joined text ends where the line after the last one would begin, less
/// the line break that is not there.
pub proof fn lemma_joined_len(lines: Seq<Seq<char>>)
    requires
        lines.len() > 0,
    ensures
        joined(lines).len() == line_start(lines, lines.len() as int) - 1,
    decreases lines.len(),
{
    let n = lines.len() as int;
    assert(line_start(lines, n) == line_start(lines, n - 1) + lines[n - 1].len() + 1);
    if n > 1 {
        lemma_joined_len(lines.drop_last());
        lemma_line_start_of_prefix(lines, n - 1);
    } else {
        assert(line_start(lines, 0) == 0);
    }
}

/// Column `c` of line `i` holds, in the joined text, the character of the line
/// there, the line break behind the line, or the end of the text.
pub proof fn lemma_joined_at(lines: Seq<Seq<char>>, i: int, c: int)
    requires
        0 <= i < lines.len(),
        0 <= c <= lines[i].len(),
    ensures
        0 <= line_start(lines, i) + c <= joined(lines).len(),
        c < lines[i].len() ==> char_at(joined(lines), line_start(lines, i) + c) == lines[i][c]
            && line_start(lines, i) + c < joined(lines).len(),
        c == lines[i].len() && i < lines.len() - 1 ==> char_at(
            joined(lines),
            line_start(lines, i) + c,
        ) == '\n' && line_start(lines, i) + c < joined(lines).len(),
        c == lines[i].len() && i == lines.len() - 1 ==> line_start(lines, i) + c == joined(
            lines,
        ).len(),
    decreases lines.len(),
{
    if lines.len() > 1 {
        let front = lines.drop_last();
        lemma_joined_len(front);
        lemma_line_start_of_prefix(lines, lines.len() - 1);
        if i < lines.len() - 1 {
            lemma_joined_at(front, i, c);
            lemma_line_start_of_prefix(lines, i);
        }
    }
}

/// A cursor over the lines of a document.
#[derive(Clone, Copy)]
pub struct TokenizerState<'a> {
    /// The character before `cur`, where the tokenizer asked to keep it.
    pub prev: char,
    /// The character that the tokenizer took last.
    pub cur: char,
    /// The character that comes next; the end sentinel behind the last line,
    /// and again once the text is used up.
    pub next: char,
    pub lines: &'a Vec<Vec<char>>,
    /// The line that `next` stands in.
    pub line_counter: usize,
    /// The column of `next` in its line.
    pub column: usize,
    /// Whether the text is used up, the end sentinel included.
    pub eof: bool,
}

impl<'a> TokenizerState<'a> {
    /// The text that the cursor walks: the lines joined by line breaks, and
    /// the end sentinel behind them.
    pub open spec fn text(&self) -> Seq<char> {
        joined(lines_view(self.lines@)).push('\0')
    }

    /// The index of `next` in the text; the length of the text once the end
    /// sentinel is taken.
    pub open spec fn pos(&self) -> int {
        (line_start(lines_view(self.lines@), self.line_counter as int) + self.column + if self.eof {
            1nat
        } else {
            0nat
        }) as int
    }

    /// The cursor stands in its text or at its end, and `next` and `eof` say
    /// what is there.
    pub open spec fn wf(&self) -> bool {
        &&& self.line_counter < self.lines@.len()
        &&& self.column <= self.lines@[self.line_counter as int]@.len()
        &&& self.pos() <= self.text().len()
        &&& self.next == char_at(self.text(), self.pos())
        &&& self.eof == (self.pos() == self.text().len())
    }

    /// Reads `next` off the place where the cursor stands.
    fn load(&mut self)
        requires
            old(self).line_counter < old(self).lines@.len(),
            old(self).column <= old(self).lines@[old(self).line_counter as int]@.len(),
            !old(self).eof,
        ensures
            final(self).wf(),
            !final(self).eof,
            final(self).lines == old(self).lines,
            final(self).line_counter == old(self).line_counter,
            final(self).column == old(self).column,
            final(self).cur == old(self).cur,
            final(self).prev == old(self).prev,
    {
        proof {
            lemma_joined_at(lines_view(self.lines@), self.line_counter as int, self.column as int);
        }
        let line = &self.lines[self.line_counter];
        if self.column < line.len() {
            self.next = line[self.column];
        } else if self.line_counter < self.lines.len() - 1 {
            self.next = '\n';
        } else {
            self.next = '\0';
        }
    }

    /// A cursor at the start of the text. There must be a line, if an empty one.
    pub fn new(lines: &'a Vec<Vec<char>>) -> (state: Self)
        requires
            lines@.len() > 0,
        ensures
            state.wf(),
            state.lines == lines,
            state.pos() == 0,
            state.prev == '\0',
            state.cur == '\0',
    {
        let mut state = TokenizerState {
            prev: '\0',
            cur: '\0',
            next: '\0',
            lines,
            line_counter: 0,
            column: 0,
            eof: false,
        };
        state.load();
        state
    }

    /// Moves one character forward. The end sentinel is a character like any
    /// other; once it is taken, the text is used up and the cursor stays.
    pub fn advance(&mut self)
        requires
            old(self).wf(),
        ensures
            final(self).wf(),
            final(self).lines == old(self).lines,
            final(self).pos() == if old(self).eof {
                old(self).pos()
            } else {
                old(self).pos() + 1
            },
            final(self).cur == old(self).cur,
            final(self).prev == old(self).prev,
    {
        if self.eof {
            return ;
        }
        proof {
            lemma_joined_at(lines_view(self.lines@), self.line_counter as int, self.column as int);
            assert(lines_view(self.lines@)[self.line_counter as int]
                == self.lines@[self.line_counter as int]@);
        }
        if self.column < self.lines[self.line_counter].len() {
            self.column += 1;
            self.load();
        } else if self.line_counter < self.lines.len() - 1 {
            self.line_counter += 1;
            self.column = 0;
            self.load();
        } else {
            self.eof = true;
            self.next = '\0';
        }
    }

    /// Takes `next` as the current character and moves on.
    pub fn advance_with_cur(&mut self)
        requires
            old(self).wf(),
        ensures
            final(self).wf(),
            final(self).lines == old(self).lines,
            final(self).pos() == if old(self).eof {
                old(self).pos()
            } else {
                old(self).pos() + 1
            },
            final(self).cur == old(self).next,
            final(self).prev == old(self).prev,
    {
        self.cur = self.next;
        self.advance();
    }

    /// Keeps the current character as the previous one, takes `next` as the
    /// current one and moves on.
    pub fn advance_with_prev(&mut self)
        requires
            old(self).wf(),
        ensures
            final(self).wf(),
            final(self).lines == old(self).lines,
            final(self).pos() == if old(self).eof {
                old(self).pos()
            } else {
                old(self).pos() + 1
            },
            final(self).cur == old(self).next,
            final(self).prev == old(self).cur,
    {
        self.prev = self.cur;
        self.cur = self.next;
        self.advance();
    }

    /// Whether the next character is the end sentinel behind the last line.
    pub fn next_is_end(&self) -> (yes: bool)
        requires
            self.wf(),
        ensures
            yes == (self.pos() + 1 == self.text().len()),
    {
        proof {
            lemma_joined_at(lines_view(self.lines@), self.line_counter as int, self.column as int);
            assert(lines_view(self.lines@)[self.line_counter as int]
                == self.lines@[self.line_counter as int]@);
        }
        !self.eof && self.line_counter == self.lines.len() - 1 && self.column
            == self.lines[self.line_counter].len()
    }

    /// Whether the next character is a decimal digit.
    pub fn next_is_digit(&self) -> (yes: bool)
        ensures
            yes == is_digit(self.next),
    {
        self.next >= '0' && self.next <= '9'
    }

    /// Whether the next character is a letter of ASCII.
    pub fn next_is_letter(&self) -> (yes: bool)
        ensures
            yes == is_letter(self.next),
    {
        self.next >= 'a' && self.next <= 'z' || self.next >= 'A' && self.next <= 'Z'
    }

    /// Whether the next character is a hexadecimal digit.
    pub fn next_is_hex(&self) -> (yes: bool)
        ensures
            yes == is_hex(self.next),
    {
        self.next >= '0' && self.next <= '9' || self.next >= 'a' && self.next <= 'f' || self.next
            >= 'A' && self.next <= 'F'
    }

    /// Takes `word` off the text and appends it to `chunk` if the text goes on
    /// with `word`; otherwise it takes nothing and leaves cursor and chunk as
    /// they were.
    pub fn keyword(&mut self, chunk: &mut Vec<char>, word: &str) -> (matched: bool)
        requires
            old(self).wf(),
        ensures
            final(self).wf(),
            final(self).lines == old(self).lines,
            final(self).cur == old(self).cur,
            final(self).prev == old(self).prev,
            matched == stands_at(old(self).text(), old(self).pos(), word@),
            matched ==> final(self).pos() == old(self).pos() + word@.len() && final(chunk)@
                == old(chunk)@ + word@,
            !matched ==> *final(self) == *old(self) && final(chunk)@ == old(chunk)@,
    {
        let n = word.unicode_len();
        let mut probe = *self;
        let mut i: usize = 0;
        proof {
            assert(self.text().subrange(self.pos(), self.pos() + 0) =~= word@.subrange(0, 0));
        }
        while i < n
            invariant
                n == word@.len(),
                i <= n,
                probe.wf(),
                self.wf(),
                probe.lines == self.lines,
                probe.cur == self.cur,
                probe.prev == self.prev,
                probe.pos() == self.pos() + i,
                stands_at(self.text(), self.pos(), word@.subrange(0, i as int)),
                *self == *old(self),
                chunk@ == old(chunk)@,
            decreases n - i,
        {
            let m = word.get_char(i);
            if probe.eof || probe.next != m {
                proof {
                    if stands_at(self.text(), self.pos(), word@) {
                        assert(self.text().subrange(self.pos(), self.pos() + word@.len())[i as int]
                            == word@[i as int]);
                    }
                }
                return false;
            }
            probe.advance();
            proof {
                let text = self.text();
                let p = self.pos();
                assert(text.subrange(p, p + i + 1) =~= text.subrange(p, p + i).push(text[p + i]));
                assert(word@.subrange(0, i + 1) =~= word@.subrange(0, i as int).push(
                    word@[i as int],
                ));
            }
            i += 1;
        }
        assert(word@.subrange(0, n as int) =~= word@);
        let mut j: usize = 0;
        while j < n
            invariant
                n == word@.len(),
                j <= n,
                chunk@ == old(chunk)@ + word@.subrange(0, j as int),
            decreases n - j,
        {
            chunk.push(word.get_char(j));
            assert(word@.subrange(0, j + 1) =~= word@.subrange(0, j as int).push(word@[j as int]));
            j += 1;
        }
        assert(word@.subrange(0, n as int) =~= word@);
        self.next = probe.next;
        self.line_counter = probe.line_counter;
        self.column = probe.column;
        self.eof = probe.eof;
        true
    }
}

/// Two neighbouring pieces of a text, appended one after the other, are the
/// piece that spans both.
pub broadcast proof fn lemma_pieces_join(base: Seq<char>, text: Seq<char>, a: int, b: int, c: int)
    requires
        0 <= a <= b <= c <= text.len(),
    ensures
        #[trigger] ((base + text.subrange(a, b)) + text.subrange(b, c)) == base + text.subrange(
            a,
            c,
        ),
{
    assert((base + text.subrange(a, b)) + text.subrange(b, c) =~= base + text.subrange(a, c));
}

/// Appending an empty piece changes nothing.
pub broadcast proof fn lemma_piece_empty(base: Seq<char>, text: Seq<char>, a: int)
    requires
        0 <= a <= text.len(),
    ensures
        #[trigger] (base + text.subrange(a, a)) == base,
{
    assert(base + text.subrange(a, a) =~= base);
}

/// How pieces of a text go together when they are appended.
pub broadcast group group_pieces {
    lemma_pieces_join,
    lemma_piece_empty,
}

} // verus!
