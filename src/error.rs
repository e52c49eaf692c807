use vstd::prelude::*;

verus! {

/// Why markup could not be parsed.
#[derive(Debug)]
pub enum Error {
    /// The markup could not be read, or its tree breaks a rule of its kind.
    Parsing(String),
}

impl Error {
    /// The message that the error carries.
    pub fn message(&self) -> (r: String)
        ensures
            match self {
                Error::Parsing(m) => r@ == m@,
            },
    {
        match self {
            Error::Parsing(m) => m.clone(),
        }
    }
}

pub type Result<T> = core::result::Result<T, Error>;

} // verus!
