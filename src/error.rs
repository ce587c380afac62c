//! Error values of the library.

use vstd::prelude::*;

verus! {

/// An error that is only a message.
#[derive(Debug)]
pub struct ErrorMessage(pub String);

impl ErrorMessage {
    /// The message.
    pub fn message(&self) -> (r: &String)
        ensures
            r@ == self.0@,
    {
        &self.0
    }
}

/// An error with a description of what was being done when it happened.
#[derive(Debug)]
pub struct ErrorContext<E>(pub String, pub Box<E>);

impl<E> ErrorContext<E> {
    /// What was being done.
    pub fn context(&self) -> (r: &String)
        ensures
            r@ == self.0@,
    {
        &self.0
    }

    /// The error that happened.
    pub fn source(&self) -> (r: &E)
        ensures
            *r == *self.1,
    {
        &self.1
    }
}

} // verus!
