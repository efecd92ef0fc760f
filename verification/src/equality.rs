//! When two `Args` are equal, and what an `Args` is when taken for a text.
//!
//! Only the text counts: neither the cursor nor what a search took out.
use crate::args::Args;
use crate::search::same_text;
use std::ops::Deref;
use vstd::prelude::*;
use vstd::std_specs::cmp::PartialEqSpecImpl;

verus! {

impl Deref for Args {
    type Target = str;

    fn deref(&self) -> (s: &str)
        ensures
            s@ == self@.text,
    {
        self.full()
    }
}

impl PartialEq for Args {
    fn eq(&self, other: &Self) -> (equal: bool) {
        same_text(self.full(), other.full())
    }
}

impl PartialEqSpecImpl for Args {
    open spec fn obeys_eq_spec() -> bool {
        true
    }

    open spec fn eq_spec(&self, other: &Self) -> bool {
        self@.text == other@.text
    }
}

impl Eq for Args {

}

impl PartialEq<str> for Args {
    fn eq(&self, other: &str) -> (equal: bool) {
        same_text(self.full(), other)
    }
}

impl PartialEqSpecImpl<str> for Args {
    open spec fn obeys_eq_spec() -> bool {
        true
    }

    open spec fn eq_spec(&self, other: &str) -> bool {
        self@.text == other@
    }
}

impl<'a> PartialEq<&'a str> for Args {
    fn eq(&self, other: &&'a str) -> (equal: bool) {
        same_text(self.full(), *other)
    }
}

impl<'a> PartialEqSpecImpl<&'a str> for Args {
    open spec fn obeys_eq_spec() -> bool {
        true
    }

    open spec fn eq_spec(&self, other: &&'a str) -> bool {
        self@.text == other@
    }
}

} // verus!
