//! The lexer: from a text and a set of delimiter characters to tokens.
//!
//! What the lexer recognises is defined over the characters of the text by [`tokens_from`];
//! [`Lexer`] computes it over the bytes of the text, one token for each call of
//! [`Lexer::commit`].
use crate::text::{
    byte_len, byte_offset, char_index, find_end, lemma_index_of_offset, lemma_next_boundary,
    lemma_offset_ends, lemma_offset_increases, lemma_offset_is_boundary, lemma_slice,
    slice_between,
};
use crate::token::{Token, TokenKind, TokenView};
use vstd::prelude::*;

verus! {

/// Index of the first double quote of `text` at or after `from`, or the length of `text` if
/// there is none.
pub open spec fn quote_from(text: Seq<char>, from: int) -> int
    decreases text.len() - from,
{
    if from >= text.len() {
        text.len() as int
    } else if text[from] == '"' {
        from
    } else {
        quote_from(text, from + 1)
    }
}

/// Index of the first delimiter of `text` at or after `from`, or the length of `text` if there
/// is none.
pub open spec fn delimiter_from(text: Seq<char>, delims: Set<char>, from: int) -> int
    decreases text.len() - from,
{
    if from >= text.len() {
        text.len() as int
    } else if delims.contains(text[from]) {
        from
    } else {
        delimiter_from(text, delims, from + 1)
    }
}

/// The kind of the token that starts at character `i` of `text`.
pub open spec fn kind_at(text: Seq<char>, delims: Set<char>, i: int) -> TokenKind
    recommends
        0 <= i < text.len(),
{
    if delims.contains(text[i]) {
        TokenKind::Delimiter
    } else if text[i] == '"' && quote_from(text, i + 1) < text.len() {
        TokenKind::QuotedArgument
    } else {
        TokenKind::Argument
    }
}

/// Index of the character after the token that starts at character `i` of `text`.
///
/// A delimiter is a token by itself. A double quote opens a token that runs through the next
/// double quote; if there is none, the token runs to the end of the text. Any other character
/// opens a token that runs up to the next delimiter.
pub open spec fn end_at(text: Seq<char>, delims: Set<char>, i: int) -> int
    recommends
        0 <= i < text.len(),
{
    if delims.contains(text[i]) {
        i + 1
    } else if text[i] == '"' {
        if quote_from(text, i + 1) < text.len() {
            quote_from(text, i + 1) + 1
        } else {
            text.len() as int
        }
    } else {
        delimiter_from(text, delims, i + 1)
    }
}

/// The token that starts at character `i` of `text`.
pub open spec fn token_at(text: Seq<char>, delims: Set<char>, i: int) -> TokenView
    recommends
        0 <= i < text.len(),
{
    TokenView {
        kind: kind_at(text, delims, i),
        lit: text.subrange(i, end_at(text, delims, i)),
        pos: byte_offset(text, i) as nat,
    }
}

/// The tokens of `text` from character `i` on, delimiters included.
pub open spec fn tokens_from(text: Seq<char>, delims: Set<char>, i: int) -> Seq<TokenView>
    decreases text.len() - i,
    via tokens_from_decreases
{
    if 0 <= i < text.len() {
        seq![token_at(text, delims, i)] + tokens_from(text, delims, end_at(text, delims, i))
    } else {
        Seq::empty()
    }
}

#[via_fn]
proof fn tokens_from_decreases(text: Seq<char>, delims: Set<char>, i: int) {
    if 0 <= i < text.len() {
        lemma_end_at(text, delims, i);
    }
}

/// All the tokens of `text`, delimiters included.
pub open spec fn tokens(text: Seq<char>, delims: Set<char>) -> Seq<TokenView> {
    tokens_from(text, delims, 0)
}

/// The literals of `tokens`, one after the other.
pub open spec fn literals(tokens: Seq<TokenView>) -> Seq<char>
    decreases tokens.len(),
{
    if tokens.len() == 0 {
        Seq::empty()
    } else {
        tokens[0].lit + literals(tokens.drop_first())
    }
}

/// The search for a quote stops at a quote or at the end, and passes no quote.
pub proof fn lemma_quote_from(text: Seq<char>, from: int)
    requires
        0 <= from <= text.len(),
    ensures
        from <= quote_from(text, from) <= text.len(),
        quote_from(text, from) < text.len() ==> text[quote_from(text, from)] == '"',
        forall|k: int| from <= k < quote_from(text, from) ==> text[k] != '"',
    decreases text.len() - from,
{
    if from < text.len() && text[from] != '"' {
        lemma_quote_from(text, from + 1);
    }
}

/// The search for a delimiter stops at a delimiter or at the end, and passes no delimiter.
pub proof fn lemma_delimiter_from(text: Seq<char>, delims: Set<char>, from: int)
    requires
        0 <= from <= text.len(),
    ensures
        from <= delimiter_from(text, delims, from) <= text.len(),
        delimiter_from(text, delims, from) < text.len() ==> delims.contains(
            text[delimiter_from(text, delims, from)],
        ),
        forall|k: int|
            from <= k < delimiter_from(text, delims, from) ==> !delims.contains(text[k]),
    decreases text.len() - from,
{
    if from < text.len() && !delims.contains(text[from]) {
        lemma_delimiter_from(text, delims, from + 1);
    }
}

/// A token is not empty and ends within the text.
pub proof fn lemma_end_at(text: Seq<char>, delims: Set<char>, i: int)
    requires
        0 <= i < text.len(),
    ensures
        i < end_at(text, delims, i) <= text.len(),
{
    lemma_quote_from(text, i + 1);
    lemma_delimiter_from(text, delims, i + 1);
}

/// A token is a part of the text, from the offset of its first character to the offset of the
/// character after its last, and a quoted token holds both its quotes.
pub proof fn lemma_token_at(text: Seq<char>, delims: Set<char>, i: int)
    requires
        0 <= i < text.len(),
    ensures
        token_at(text, delims, i).well_quoted(),
        token_at(text, delims, i).lies_in(text),
        token_at(text, delims, i).lit.len() > 0,
        token_at(text, delims, i).pos == byte_offset(text, i),
        token_at(text, delims, i).end() == byte_offset(text, end_at(text, delims, i)),
        byte_offset(text, i) < byte_offset(text, end_at(text, delims, i)),
{
    let end = end_at(text, delims, i);
    lemma_end_at(text, delims, i);
    lemma_quote_from(text, i + 1);
    lemma_slice(text, i, end);
    lemma_offset_is_boundary(text, i);
    lemma_offset_is_boundary(text, end);
    lemma_offset_increases(text, i, end);
}

/// Where a search for a quote stops is where [`quote_from`] says.
pub proof fn lemma_quote_found(text: Seq<char>, from: int, q: int)
    requires
        0 <= from <= q <= text.len(),
        q < text.len() ==> text[q] == '"',
        forall|k: int| from <= k < q ==> text[k] != '"',
    ensures
        quote_from(text, from) == q,
    decreases q - from,
{
    if from < q {
        lemma_quote_found(text, from + 1, q);
    }
}

/// Where a search for a delimiter stops is where [`delimiter_from`] says.
pub proof fn lemma_delimiter_found(text: Seq<char>, delims: Set<char>, from: int, d: int)
    requires
        0 <= from <= d <= text.len(),
        d < text.len() ==> delims.contains(text[d]),
        forall|k: int| from <= k < d ==> !delims.contains(text[k]),
    ensures
        delimiter_from(text, delims, from) == d,
    decreases d - from,
{
    if from < d {
        lemma_delimiter_found(text, delims, from + 1, d);
    }
}

/// Whether `c` is one of `chars`.
pub fn is_one_of(c: char, chars: &[char]) -> (b: bool)
    ensures
        b == chars@.contains(c),
{
    let mut i: usize = 0;
    while i < chars.len()
        invariant
            i <= chars@.len(),
            forall|k: int| 0 <= k < i ==> chars@[k] != c,
        decreases chars@.len() - i,
    {
        if chars[i] == c {
            return true;
        }
        i += 1;
    }
    false
}

/// A reader of tokens: it stands at a character boundary of its text and moves forward.
#[derive(Debug)]
pub struct Lexer<'a> {
    msg: &'a str,
    delims: &'a [char],
    offset: usize,
}

impl<'a> Lexer<'a> {
    /// The text that is read.
    pub closed spec fn text(&self) -> Seq<char> {
        self.msg@
    }

    /// The characters that separate arguments.
    pub closed spec fn delimiters(&self) -> Set<char> {
        self.delims@.to_set()
    }

    /// Byte offset of the next character to read.
    pub closed spec fn offset(&self) -> int {
        self.offset as int
    }

    /// Index of the next character to read.
    pub open spec fn index(&self) -> int {
        char_index(self.text(), self.offset())
    }

    /// The lexer stands at the start of a character of its text, or at the end.
    pub open spec fn wf(&self) -> bool {
        &&& 0 <= self.index() <= self.text().len()
        &&& self.offset() == byte_offset(self.text(), self.index())
    }

    /// What holds of every lexer: see [`Lexer::wf`].
    #[verifier::type_invariant]
    spec fn valid(self) -> bool {
        self.wf()
    }

    /// A lexer at the start of `msg`, with `delims` as the delimiters.
    pub fn new(msg: &'a str, delims: &'a [char]) -> (lexer: Self)
        ensures
            lexer.wf(),
            lexer.text() == msg@,
            lexer.delimiters() == delims@.to_set(),
            lexer.index() == 0,
    {
        Lexer { msg, delims, offset: 0 }
    }

    /// Whether the whole text has been read.
    pub fn at_end(&self) -> (b: bool)
        ensures
            self.wf(),
            b == (self.index() >= self.text().len()),
    {
        proof {
            use_type_invariant(&*self);
            lemma_offset_ends(self.msg@);
            if self.index() < self.msg@.len() {
                lemma_offset_increases(self.msg@, self.index(), self.msg@.len() as int);
            }
        }
        self.offset >= byte_len(self.msg)
    }

    /// The next character to read, as a part of the text.
    pub fn current(&self) -> (r: Option<&'a str>)
        ensures
            self.wf(),
            match r {
                Some(s) => self.index() < self.text().len() && s@ == seq![
                    self.text()[self.index()],
                ],
                None => self.index() >= self.text().len(),
            },
    {
        if self.at_end() {
            return None;
        }
        let start = self.offset;
        proof {
            lemma_offset_ends(self.msg@);
            lemma_offset_increases(self.msg@, self.index(), self.msg@.len() as int);
        }
        match find_end(self.msg, start) {
            None => None,
            Some(end) => {
                proof {
                    let text = self.msg@;
                    let n = self.index();
                    lemma_offset_is_boundary(text, n);
                    lemma_next_boundary(text, n, end as int);
                    lemma_index_of_offset(text, n + 1);
                }
                Some(slice_between(self.msg, start, end))
            },
        }
    }

    /// Moves past the next character, if there is one.
    pub fn next(&mut self) -> (r: Option<()>)
        ensures
            final(self).wf(),
            final(self).text() == old(self).text(),
            final(self).delimiters() == old(self).delimiters(),
            match r {
                Some(_) => old(self).index() < old(self).text().len() && final(self).index()
                    == old(self).index() + 1,
                None => old(self).index() >= old(self).text().len() && final(self).index() == old(
                    self,
                ).index(),
            },
    {
        proof {
            use_type_invariant(&*self);
            lemma_offset_ends(self.msg@);
            if self.index() < self.msg@.len() {
                lemma_offset_increases(self.msg@, self.index(), self.msg@.len() as int);
            }
        }
        match find_end(self.msg, self.offset) {
            None => None,
            Some(end) => {
                proof {
                    let text = self.msg@;
                    let n = self.index();
                    lemma_next_boundary(text, n, end as int);
                    lemma_index_of_offset(text, n + 1);
                }
                self.offset = end;
                Some(())
            },
        }
    }

    /// Whether the next character to read is a delimiter.
    fn at_delimiter(&self) -> (b: bool)
        requires
            self.index() < self.text().len(),
        ensures
            b == self.delimiters().contains(self.text()[self.index()]),
    {
        match self.current() {
            None => false,
            Some(s) => is_one_of(s.get_char(0), self.delims),
        }
    }

    /// Whether the next character to read is a double quote.
    fn at_quote(&self) -> (b: bool)
        requires
            self.index() < self.text().len(),
        ensures
            b == (self.text()[self.index()] == '"'),
    {
        match self.current() {
            None => false,
            Some(s) => s.get_char(0) == '"',
        }
    }

    /// The part of the text from byte offset `start`, the start of a character, up to where
    /// the lexer stands.
    fn taken(&self, start: usize) -> (s: &'a str)
        requires
            0 <= char_index(self.text(), start as int) <= self.index(),
            start == byte_offset(self.text(), char_index(self.text(), start as int)),
        ensures
            s@ == self.text().subrange(char_index(self.text(), start as int), self.index()),
    {
        proof {
            use_type_invariant(&*self);
            let text = self.msg@;
            let from = char_index(text, start as int);
            lemma_slice(text, from, self.index());
            lemma_offset_is_boundary(text, from);
            lemma_offset_is_boundary(text, self.index());
        }
        slice_between(self.msg, start, self.offset)
    }

    /// Reads the next token and moves past it. There is none at the end of the text.
    pub fn commit(&mut self) -> (r: Option<Token>)
        ensures
            final(self).wf(),
            final(self).text() == old(self).text(),
            final(self).delimiters() == old(self).delimiters(),
            match r {
                Some(token) => {
                    &&& old(self).index() < old(self).text().len()
                    &&& token@ == token_at(
                        old(self).text(),
                        old(self).delimiters(),
                        old(self).index(),
                    )
                    &&& final(self).index() == end_at(
                        old(self).text(),
                        old(self).delimiters(),
                        old(self).index(),
                    )
                },
                None => old(self).index() >= old(self).text().len() && final(self).index() == old(
                    self,
                ).index(),
            },
    {
        if self.at_end() {
            return None;
        }
        let ghost text = self.text();
        let ghost delims = self.delimiters();
        let ghost i = self.index();
        let start = self.offset;

        if self.at_delimiter() {
            self.next();
            return Some(Token::new(TokenKind::Delimiter, self.taken(start), start));
        }
        if self.at_quote() {
            self.next();

            while !self.at_end() && !self.at_quote()
                invariant
                    self.wf(),
                    self.text() == text,
                    self.delimiters() == delims,
                    0 <= i,
                    i + 1 <= self.index() <= text.len(),
                    forall|k: int| i + 1 <= k < self.index() ==> text[k] != '"',
                decreases text.len() - self.index(),
            {
                self.next();
            }

            proof {
                lemma_quote_found(text, i + 1, self.index());
            }
            let closed = !self.at_end();
            self.next();

            return Some(
                if closed {
                    Token::new(TokenKind::QuotedArgument, self.taken(start), start)
                } else {
                    // The quote is never closed: it is part of a plain argument.
                    Token::new(TokenKind::Argument, self.taken(start), start)
                },
            );
        }
        self.next();

        while !self.at_end() && !self.at_delimiter()
            invariant
                self.wf(),
                self.text() == text,
                self.delimiters() == delims,
                0 <= i,
                i + 1 <= self.index() <= text.len(),
                forall|k: int| i + 1 <= k < self.index() ==> !delims.contains(text[k]),
            decreases text.len() - self.index(),
        {
            self.next();
        }

        proof {
            lemma_delimiter_found(text, delims, i + 1, self.index());
        }
        Some(Token::new(TokenKind::Argument, self.taken(start), start))
    }
}

} // verus!
