use vstd::prelude::*;

use anyhow::Error as AnyhowError;


verus! {

#[verifier::external_type_specification]
#[verifier::external_body]
pub struct ExAnyhowError(AnyhowError);

/// Makes an `anyhow::Error` from a message (`anyhow::Error::msg`).
#[verifier::external_body]
fn anyhow_msg(message: String) -> AnyhowError {
    AnyhowError::msg(message)
}

/// Formats an `anyhow::Error` with its `Display`. What the text is depends
/// on the error's source and is not stated here.
#[verifier::external_body]
fn anyhow_text(error: &AnyhowError) -> String {
    format!("{}", error)
}

/// Errors raised in this application: the wrapped error, and the message
/// it was made from where it was made from one.
pub struct Error {
    error: AnyhowError,
    message: Option<String>,
}

impl Error {
    /// The message the error was made from, where it was made from one.
    pub closed spec fn made_from(&self) -> Option<Seq<char>> {
        match self.message {
            Some(m) => Some(m@),
            None => None,
        }
    }

    /// The wrapped error.
    pub closed spec fn inner(&self) -> AnyhowError {
        self.error
    }

    /// An error that carries the message `message`.
    pub fn message(message: String) -> (r: Error)
        ensures
            r.made_from() == Some(message@),
    {
        let text = message.clone();
        Error { error: anyhow_msg(message), message: Some(text) }
    }

    /// Wraps an error raised elsewhere.
    pub fn from_anyhow(error: AnyhowError) -> (r: Error)
        ensures
            r.inner() == error,
            r.made_from() is None,
    {
        Error { error, message: None }
    }

    /// The wrapped error.
    pub fn into_inner(self) -> (r: AnyhowError)
        ensures
            r == self.inner(),
    {
        self.error
    }

    /// The error's text: for an error made from a message, that message;
    /// otherwise what the wrapped error displays.
    pub fn to_text(&self) -> (r: String)
        ensures
            self.made_from() matches Some(m) ==> r@ == m,
    {
        match &self.message {
            Some(m) => m.clone(),
            None => anyhow_text(&self.error),
        }
    }
}

} // verus!
