//! Conversion of an argument's text into a value.
use crate::search::same_text;
use crate::text::{
    byte_len, find_end, lemma_index_of_offset, lemma_next_boundary, lemma_offset_ends,
    slice_between,
};
use std::convert::Infallible;
use vstd::prelude::*;
use vstd::utf8::*;

verus! {

/// A type whose values can be written as text.
///
/// What a text means is fixed by `parse_spec`, over the characters of the text and the views
/// of the value and of the error: the conversion itself computes just that, so that converting
/// the same text twice gives the same result.
pub trait FromText: Sized + View {
    /// Why a text may stand for no value.
    type Err: View;

    /// The value that `text` stands for, or why it stands for none.
    spec fn parse_spec(text: Seq<char>) -> Result<Self::V, <Self::Err as View>::V>;

    /// Converts `text`.
    fn from_text(text: &str) -> (r: Result<Self, Self::Err>)
        ensures
            result_view(r) == Self::parse_spec(text@),
    ;
}

/// The model of a conversion's result: the view of the value or of the error.
pub open spec fn result_view<T: View, E: View>(r: Result<T, E>) -> Result<T::V, E::V> {
    match r {
        Ok(v) => Ok(v@),
        Err(e) => Err(e@),
    }
}

/// The error of a conversion that cannot fail: a type without values.
#[derive(Debug)]
pub struct Never(pub Infallible);

impl View for Never {
    type V = Never;

    open spec fn view(&self) -> Never {
        *self
    }
}

/// Every text is a `String`: the conversion copies it.
impl FromText for String {
    type Err = Never;

    open spec fn parse_spec(text: Seq<char>) -> Result<Seq<char>, Never> {
        Ok(text)
    }

    fn from_text(text: &str) -> (r: Result<String, Never>) {
        Ok(text.to_owned())
    }
}

/// The text is neither `true` nor `false`.
#[derive(Clone, Copy, Debug, PartialEq, Eq, Structural)]
pub struct BoolError;

impl View for BoolError {
    type V = BoolError;

    open spec fn view(&self) -> BoolError {
        *self
    }
}

/// The texts `true` and `false` are the two truth values, and no other text is one.
impl FromText for bool {
    type Err = BoolError;

    open spec fn parse_spec(text: Seq<char>) -> Result<bool, BoolError> {
        if text == seq!['t', 'r', 'u', 'e'] {
            Ok(true)
        } else if text == seq!['f', 'a', 'l', 's', 'e'] {
            Ok(false)
        } else {
            Err(BoolError)
        }
    }

    fn from_text(text: &str) -> (r: Result<bool, BoolError>) {
        proof {
            reveal_strlit("true");
            reveal_strlit("false");
            assert("true"@ =~= seq!['t', 'r', 'u', 'e']);
            assert("false"@ =~= seq!['f', 'a', 'l', 's', 'e']);
        }
        if same_text(text, "true") {
            Ok(true)
        } else if same_text(text, "false") {
            Ok(false)
        } else {
            Err(BoolError)
        }
    }
}

/// Why a text is no single character.
#[derive(Clone, Copy, Debug, PartialEq, Eq, Structural)]
pub enum CharError {
    /// The text is empty.
    EmptyString,
    /// The text has more than one character.
    TooManyChars,
}

impl View for CharError {
    type V = CharError;

    open spec fn view(&self) -> CharError {
        *self
    }
}

/// A text of exactly one character is that character.
impl FromText for char {
    type Err = CharError;

    open spec fn parse_spec(text: Seq<char>) -> Result<char, CharError> {
        if text.len() == 0 {
            Err(CharError::EmptyString)
        } else if text.len() > 1 {
            Err(CharError::TooManyChars)
        } else {
            Ok(text[0])
        }
    }

    fn from_text(text: &str) -> (r: Result<char, CharError>) {
        proof {
            lemma_offset_ends(text@);
        }
        match find_end(text, 0) {
            None => Err(CharError::EmptyString),
            Some(end) => {
                proof {
                    encode_utf8_valid_utf8(text@);
                    lemma_next_boundary(text@, 0, end as int);
                    lemma_index_of_offset(text@, 1);
                    lemma_index_of_offset(text@, text@.len() as int);
                }
                if end < byte_len(text) {
                    Err(CharError::TooManyChars)
                } else {
                    Ok(slice_between(text, 0, end).get_char(0))
                }
            },
        }
    }
}

} // verus!
