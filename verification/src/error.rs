use vstd::prelude::*;
use vstd::std_specs::convert::FromSpecImpl;

verus! {

/// The I/O error type of std.
#[verifier::external_type_specification]
#[verifier::external_body]
pub struct ExIoError(std::io::Error);

/// The error type of `serde_json`.
#[verifier::external_type_specification]
#[verifier::external_body]
pub struct ExJsonError(serde_json::Error);

/// The error type of `sled`.
#[verifier::external_type_specification]
#[verifier::external_body]
pub struct ExSledError(sled::Error);

/// The error of std's conversion of bytes that are not UTF-8 into a `String`.
#[verifier::external_type_specification]
#[verifier::external_body]
pub struct ExFromUtf8Error(std::string::FromUtf8Error);

/// Everything that can go wrong in the store and its engines.
#[derive(Debug)]
pub enum DbError {
    IoErr(std::io::Error),
    SerdeErr(serde_json::Error),
    KeyNotFoundErr,
    UnexpectCommandErr,
    SledErr(sled::Error),
    FromU8Err(std::string::FromUtf8Error),
    StrErr(String),
}

pub type Result<T> = std::result::Result<T, DbError>;

impl From<std::io::Error> for DbError {
    fn from(err: std::io::Error) -> (r: Self) {
        DbError::IoErr(err)
    }
}

impl FromSpecImpl<std::io::Error> for DbError {
    open spec fn obeys_from_spec() -> bool {
        true
    }

    open spec fn from_spec(v: std::io::Error) -> Self {
        DbError::IoErr(v)
    }
}

impl From<serde_json::Error> for DbError {
    fn from(err: serde_json::Error) -> (r: Self) {
        DbError::SerdeErr(err)
    }
}

impl FromSpecImpl<serde_json::Error> for DbError {
    open spec fn obeys_from_spec() -> bool {
        true
    }

    open spec fn from_spec(v: serde_json::Error) -> Self {
        DbError::SerdeErr(v)
    }
}

impl From<sled::Error> for DbError {
    fn from(err: sled::Error) -> (r: Self) {
        DbError::SledErr(err)
    }
}

impl FromSpecImpl<sled::Error> for DbError {
    open spec fn obeys_from_spec() -> bool {
        true
    }

    open spec fn from_spec(v: sled::Error) -> Self {
        DbError::SledErr(v)
    }
}

impl From<std::string::FromUtf8Error> for DbError {
    fn from(err: std::string::FromUtf8Error) -> (r: Self) {
        DbError::FromU8Err(err)
    }
}

impl FromSpecImpl<std::string::FromUtf8Error> for DbError {
    open spec fn obeys_from_spec() -> bool {
        true
    }

    open spec fn from_spec(v: std::string::FromUtf8Error) -> Self {
        DbError::FromU8Err(v)
    }
}

} // verus!
