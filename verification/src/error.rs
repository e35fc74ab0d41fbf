use vstd::prelude::*;

verus! {

/// Errors that the relay reports to its host runtime.
pub enum Error {
    /// An error raised by the host runtime, carried as its message.
    WorkerError(String),
}

impl Error {
    /// The message that the error carries.
    pub open spec fn message(&self) -> Seq<char> {
        match self {
            Error::WorkerError(m) => m@,
        }
    }

    /// The error for a message of the host runtime.
    pub fn worker(message: String) -> (e: Error)
        ensures
            e.message() == message@,
    {
        Error::WorkerError(message)
    }
}

} // verus!
