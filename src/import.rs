use vstd::prelude::*;

verus! {

/// The largest body that an import accepts, in bytes.
pub const MAX: u64 = 1024 * 1024 * 1024 * 4;

/// How the outcome of an import is sent back.
#[derive(Debug, PartialEq, Eq, Clone, Copy)]
pub enum Format {
    /// Simplified values as JSON.
    Json,
    /// Simplified values as CBOR.
    Cbor,
    /// Simplified values as MessagePack.
    Pack,
    /// The full internal form.
    Full,
    /// No body.
    Nothing,
}

/// Why an import is refused.
#[derive(Debug, PartialEq, Eq)]
pub enum ImportError {
    /// The session may not write to a database.
    InvalidAuth,
    /// The requested content type is not offered.
    InvalidType,
}

/// The format named by an `Accept` header value, if any.
pub open spec fn format_of(accept: Seq<char>) -> Option<Format> {
    if accept == "application/json"@ {
        Some(Format::Json)
    } else if accept == "application/cbor"@ {
        Some(Format::Cbor)
    } else if accept == "application/pack"@ {
        Some(Format::Pack)
    } else if accept == "application/surrealdb"@ {
        Some(Format::Full)
    } else if accept == "application/octet-stream"@ {
        Some(Format::Nothing)
    } else {
        None
    }
}

/// Only a session with database rights may import.
pub fn authorize(is_db: bool) -> (r: Result<(), ImportError>)
    ensures
        r == if is_db { Ok::<(), ImportError>(()) } else { Err(ImportError::InvalidAuth) },
{
    if is_db {
        Ok(())
    } else {
        Err(ImportError::InvalidAuth)
    }
}

/// The format in which to answer a request that accepts `accept`.
pub fn response_format(accept: &String) -> (r: Result<Format, ImportError>)
    ensures
        r == match format_of(accept@) {
            Some(f) => Ok::<Format, ImportError>(f),
            None => Err(ImportError::InvalidType),
        },
{
    if *accept == "application/json".to_string() {
        Ok(Format::Json)
    } else if *accept == "application/cbor".to_string() {
        Ok(Format::Cbor)
    } else if *accept == "application/pack".to_string() {
        Ok(Format::Pack)
    } else if *accept == "application/surrealdb".to_string() {
        Ok(Format::Full)
    } else if *accept == "application/octet-stream".to_string() {
        Ok(Format::Nothing)
    } else {
        Err(ImportError::InvalidType)
    }
}

} // verus!
