use vstd::prelude::*;

verus! {

/// A plain error value carrying a human-readable message.
#[derive(Debug)]
pub struct GenericError {
    message: String,
}

impl GenericError {
    /// The stored message, as a character sequence.
    pub closed spec fn message_view(&self) -> Seq<char> {
        self.message@
    }

    /// Wrap a message.
    pub fn new(message: String) -> (e: GenericError)
        ensures
            e.message_view() == message@,
    {
        GenericError { message }
    }

    /// Read the message back.
    pub fn message(&self) -> (m: &str)
        ensures
            m@ == self.message_view(),
    {
        self.message.as_str()
    }
}

/// Turning a plain message into a failed result.
pub trait IntoError<T>: View<V = Seq<char>> {
    /// Wrap `self` as the error of a `Result`, keeping it as the message.
    fn into_error(self) -> (r: Result<T, GenericError>)
        ensures
            r matches Err(e) && e.message_view() == self@,
    ;
}

impl<T> IntoError<T> for String {
    fn into_error(self) -> (r: Result<T, GenericError>) {
        Err(GenericError::new(self))
    }
}

impl<T> IntoError<T> for &str {
    fn into_error(self) -> (r: Result<T, GenericError>) {
        Err(GenericError::new(self.to_owned()))
    }
}

} // verus!
