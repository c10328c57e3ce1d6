use vstd::prelude::*;
use crate::error::{DeserializeError, ErrorKind};

verus! {

/// A position in a text that is read from left to right.
pub struct Cursor<'a> {
    /// The whole text, one Unicode scalar value per item.
    pub input: &'a Vec<char>,
    /// The index of the next character to read.
    pub pos: usize,
}

/// The character of `s` at `i`, if `s` reaches that far.
pub open spec fn char_at(s: Seq<char>, i: int) -> Option<char> {
    if 0 <= i < s.len() {
        Some(s[i])
    } else {
        None
    }
}

impl<'a> Cursor<'a> {
    /// A cursor at the start of `input`.
    pub fn new(input: &'a Vec<char>) -> (cur: Self)
        ensures
            cur.input == input,
            cur.pos == 0,
    {
        Cursor { input, pos: 0 }
    }

    /// The text under the cursor.
    pub open spec fn text(&self) -> Seq<char> {
        self.input@
    }

    /// Reads the next character, if there is one.
    pub fn next(&mut self) -> (r: Option<char>)
        ensures
            final(self).input == old(self).input,
            r == char_at(old(self).text(), old(self).pos as int),
            final(self).pos == if r is Some {
                old(self).pos + 1
            } else {
                old(self).pos as int
            },
    {
        if self.pos < self.input.len() {
            let c = self.input[self.pos];
            self.pos = self.pos + 1;
            Some(c)
        } else {
            None
        }
    }

    /// Whether every character has been read.
    pub fn at_end(&self) -> (r: bool)
        ensures
            r == (self.pos >= self.text().len()),
    {
        self.pos >= self.input.len()
    }
}

/// The next character, which stays unread.
pub fn peek(cur: &Cursor) -> (r: Option<char>)
    ensures
        r == char_at(cur.text(), cur.pos as int),
{
    if cur.pos < cur.input.len() {
        Some(cur.input[cur.pos])
    } else {
        None
    }
}

/// The character `n` places after the next one, which stays unread.
pub fn peekn(cur: &Cursor, n: usize) -> (r: Option<char>)
    ensures
        r == char_at(cur.text(), cur.pos + n),
{
    let len = cur.input.len();
    if cur.pos < len && n < len - cur.pos {
        Some(cur.input[cur.pos + n])
    } else {
        None
    }
}

/// Reads the next character if it is `expected`. Otherwise the cursor stays
/// where it is, and the error says whether the text had ended.
pub fn eat(cur: &mut Cursor, expected: char) -> (r: Result<(), DeserializeError>)
    ensures
        final(cur).input == old(cur).input,
        match char_at(old(cur).text(), old(cur).pos as int) {
            Some(c) => if c == expected {
                r == Ok::<(), DeserializeError>(()) && final(cur).pos == old(cur).pos + 1
            } else {
                r == Err::<(), DeserializeError>(DeserializeError { kind: ErrorKind::UnexpectedChar })
                    && final(cur).pos == old(cur).pos
            },
            None => r == Err::<(), DeserializeError>(DeserializeError { kind: ErrorKind::UnexpectedEnd })
                && final(cur).pos == old(cur).pos,
        },
{
    if cur.pos < cur.input.len() {
        if cur.input[cur.pos] == expected {
            cur.pos = cur.pos + 1;
            Ok(())
        } else {
            Err(DeserializeError::new(ErrorKind::UnexpectedChar))
        }
    } else {
        Err(DeserializeError::new(ErrorKind::UnexpectedEnd))
    }
}

} // verus!
