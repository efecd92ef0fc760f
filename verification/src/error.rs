//! How an operation on the arguments can fail.
use vstd::prelude::*;
use vstd::std_specs::convert::FromSpecImpl;

verus! {

/// Why an argument could not be handed out.
#[derive(Debug)]
pub enum Error<E> {
    /// End of string: there is nothing to read anymore.
    Eos,
    /// The argument is there, but its conversion failed with this error.
    Parse(E),
}

impl<E: View> View for Error<E> {
    type V = Error<E::V>;

    open spec fn view(&self) -> Error<E::V> {
        match self {
            Error::Eos => Error::Eos,
            Error::Parse(e) => Error::Parse(e@),
        }
    }
}

impl<E> From<E> for Error<E> {
    fn from(e: E) -> (error: Self) {
        Error::Parse(e)
    }
}

impl<E> FromSpecImpl<E> for Error<E> {
    open spec fn obeys_from_spec() -> bool {
        true
    }

    open spec fn from_spec(e: E) -> Self {
        Error::Parse(e)
    }
}

} // verus!
