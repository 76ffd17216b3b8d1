//! Error values shared by the crate: an I/O error carried through
//! opaquely, or a general message.
use vstd::prelude::*;

verus! {

/// Declares `std::io::Error` so that it may stand in a field below;
/// vstd gives the type no specification.  Values of it are only
/// carried, never inspected, by verified code.
#[verifier::external_type_specification]
#[verifier::external_body]
pub struct ExIoError(std::io::Error);

/// The crate's error type.
#[derive(Debug)]
pub enum RecolError {
    Io(std::io::Error),
    General(String),
}

pub type RecolResult<T> = Result<T, RecolError>;

impl RecolError {
    /// A short description of the error, usable where a display string
    /// is wanted.
    pub fn describe(&self) -> (r: String)
        ensures
            self matches RecolError::General(m) ==> r@ == m@,
            self matches RecolError::Io(_) ==> r@ == "I/O error"@,
    {
        match self {
            RecolError::Io(_) => {
                proof {
                    reveal_strlit("I/O error");
                }
                "I/O error".to_string()
            },
            RecolError::General(m) => m.clone(),
        }
    }
}

impl From<std::io::Error> for RecolError {
    fn from(e: std::io::Error) -> (r: Self) {
        RecolError::Io(e)
    }
}

impl vstd::std_specs::convert::FromSpecImpl<std::io::Error> for RecolError {
    open spec fn obeys_from_spec() -> bool {
        true
    }

    open spec fn from_spec(e: std::io::Error) -> Self {
        RecolError::Io(e)
    }
}

} // verus!
