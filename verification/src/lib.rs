use vstd::prelude::*;
use vstd::std_specs::convert::FromSpecImpl;

pub mod classifier;
pub mod compilation;
pub mod database;
pub mod decimal;
pub mod store;
pub mod text;
pub mod trace;

verus! {

/// What can go wrong while a compilation database is built.
#[derive(Debug)]
pub enum DatabaseError {
    /// The storage could not be read or written.
    Io(std::io::Error),
    /// Stored content is not valid structured data.
    Json(serde_json::Error),
}

impl From<std::io::Error> for DatabaseError {
    fn from(err: std::io::Error) -> (r: DatabaseError) {
        DatabaseError::Io(err)
    }
}

impl FromSpecImpl<std::io::Error> for DatabaseError {
    open spec fn obeys_from_spec() -> bool {
        true
    }

    open spec fn from_spec(err: std::io::Error) -> DatabaseError {
        DatabaseError::Io(err)
    }
}

impl From<serde_json::Error> for DatabaseError {
    fn from(err: serde_json::Error) -> (r: DatabaseError) {
        DatabaseError::Json(err)
    }
}

impl FromSpecImpl<serde_json::Error> for DatabaseError {
    open spec fn obeys_from_spec() -> bool {
        true
    }

    open spec fn from_spec(err: serde_json::Error) -> DatabaseError {
        DatabaseError::Json(err)
    }
}

} // verus!
