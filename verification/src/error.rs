use vstd::prelude::*;

verus! {

/// Errors raised by the core model and configuration.
#[derive(Debug, PartialEq, Eq)]
pub enum NreseError {
    /// A value that is not an IRI.
    InvalidIri(String),
    /// An operation the engine does not support.
    Unsupported(&'static str),
    /// A configuration that cannot be used.
    Configuration(String),
}

/// The text of an error.
pub open spec fn error_text(e: NreseError) -> Seq<char> {
    match e {
        NreseError::InvalidIri(v) => "invalid IRI: "@ + v@,
        NreseError::Unsupported(v) => "operation is not supported: "@ + v@,
        NreseError::Configuration(v) => "configuration error: "@ + v@,
    }
}

impl NreseError {
    /// The text of the error, naming its kind and its detail.
    pub fn message(&self) -> (r: String)
        ensures
            r@ == error_text(*self),
    {
        let (mut text, detail) = match self {
            NreseError::InvalidIri(v) => ("invalid IRI: ".to_owned(), v.as_str()),
            NreseError::Unsupported(v) => ("operation is not supported: ".to_owned(), *v),
            NreseError::Configuration(v) => ("configuration error: ".to_owned(), v.as_str()),
        };
        text.append(detail);
        text
    }
}

/// Result type of the core model.
pub type NreseResult<T> = Result<T, NreseError>;

} // verus!
