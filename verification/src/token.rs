//! Tokens: the units that the lexer recognises in a text.
use crate::text::{
    byte_len, find_end, find_start, lemma_index_of_offset, lemma_next_boundary, lemma_offset_ends,
    lemma_offset_increases, lemma_offset_is_boundary, lemma_previous_boundary, slice_between,
};
use vstd::prelude::*;
use vstd::utf8::*;

verus! {

/// How a token was recognised.
#[derive(Clone, Copy, Debug, PartialEq, Eq, Structural)]
pub enum TokenKind {
    /// One delimiter character.
    Delimiter,
    /// A run of characters without a delimiter, or everything from a quote that is never
    /// closed to the end of the text.
    Argument,
    /// Everything from a double quote to the next one, both included.
    QuotedArgument,
}

/// One recognised unit of a text.
#[derive(Debug)]
pub struct Token {
    pub kind: TokenKind,
    /// The part of the text that the token spans, as it was written.
    pub lit: String,
    /// Byte offset in the text at which the token starts.
    pub pos: usize,
}

/// The mathematical model of a [`Token`].
pub struct TokenView {
    pub kind: TokenKind,
    pub lit: Seq<char>,
    pub pos: nat,
}

impl View for Token {
    type V = TokenView;

    open spec fn view(&self) -> TokenView {
        TokenView { kind: self.kind, lit: self.lit@, pos: self.pos as nat }
    }
}

impl TokenView {
    /// A quoted token holds its two quotes, first and last.
    pub open spec fn well_quoted(self) -> bool {
        self.kind == TokenKind::QuotedArgument ==> {
            &&& self.lit.len() >= 2
            &&& self.lit.first() == '"'
            &&& self.lit.last() == '"'
        }
    }

    /// The literal, without the pair of quotes if the token is quoted.
    pub open spec fn unquoted(self) -> Seq<char> {
        if self.kind == TokenKind::QuotedArgument {
            self.lit.subrange(1, self.lit.len() - 1)
        } else {
            self.lit
        }
    }

    /// The text that a conversion reads: the literal as it is, or without its quotes where
    /// quotes count.
    pub open spec fn text(self, quoted: bool) -> Seq<char> {
        if quoted {
            self.unquoted()
        } else {
            self.lit
        }
    }

    /// Byte offset in the text at which the token ends.
    pub open spec fn end(self) -> int {
        self.pos as int + encode_utf8(self.lit).len()
    }

    /// The token's literal stands in `text` at the token's position, byte for byte, and the
    /// token starts and ends at a character boundary of `text`.
    pub open spec fn lies_in(self, text: Seq<char>) -> bool {
        let bytes = encode_utf8(text);
        &&& self.end() <= bytes.len()
        &&& is_char_boundary(bytes, self.pos as int)
        &&& is_char_boundary(bytes, self.end())
        &&& bytes.subrange(self.pos as int, self.end()) == encode_utf8(self.lit)
    }
}

impl Clone for Token {
    fn clone(&self) -> (token: Token)
        ensures
            token == *self,
    {
        Token { kind: self.kind, lit: self.lit.clone(), pos: self.pos }
    }
}

impl Token {
    /// A token of the given kind that holds a copy of `lit` and starts at byte offset `pos`.
    pub fn new(kind: TokenKind, lit: &str, pos: usize) -> (token: Token)
        ensures
            token@ == (TokenView { kind, lit: lit@, pos: pos as nat }),
    {
        Token { kind, lit: lit.to_owned(), pos }
    }
}

/// The text of a token that a conversion reads when quotes count: the literal, without its
/// first and last character if the token is quoted.
pub fn quotes_extract(token: &Token) -> (r: &str)
    requires
        token.kind == TokenKind::QuotedArgument ==> token@.lit.len() >= 2,
    ensures
        r@ == token@.unquoted(),
{
    if token.kind == TokenKind::QuotedArgument {
        let lit = token.lit.as_str();
        let len = byte_len(lit);
        proof {
            let text = lit@;
            let n = text.len() as int;
            lemma_offset_ends(text);
            lemma_offset_increases(text, 0, 1);
            lemma_offset_increases(text, n - 1, n);
            if 1 < n - 1 {
                lemma_offset_increases(text, 1, n - 1);
            }
            lemma_offset_is_boundary(text, 0);
            lemma_offset_is_boundary(text, n);
        }
        match (find_end(lit, 0), find_start(lit, len)) {
            (Some(start), Some(end)) => {
                proof {
                    let text = lit@;
                    let n = text.len() as int;
                    lemma_next_boundary(text, 0, start as int);
                    lemma_previous_boundary(text, n, end as int);
                    lemma_index_of_offset(text, 1);
                    lemma_index_of_offset(text, n - 1);
                }
                slice_between(lit, start, end)
            },
            _ => lit,
        }
    } else {
        token.lit.as_str()
    }
}

} // verus!
