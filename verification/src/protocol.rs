use vstd::prelude::*;

use crate::error::DbError;

verus! {

/// A request a client sends to the server.
pub enum Request {
    Get { key: String },
    Put { key: String, value: String },
    Remove { key: String },
}

/// The server's answer to a `Get`: the value found, or the server's error message.
pub enum GetResponse {
    Done(Option<String>),
    Failed(String),
}

/// The server's answer to a `Put`.
pub enum SetResponse {
    Done,
    Failed(String),
}

/// The server's answer to a `Remove`.
pub enum RemoveResponse {
    Done,
    Failed(String),
}

impl GetResponse {
    /// The outcome of a lookup as the client reports it: the value found, or
    /// the server's message as a `StrErr`.
    pub fn into_result(self) -> (r: Result<Option<String>, DbError>)
        ensures
            match self {
                GetResponse::Done(v) => r == Ok::<Option<String>, DbError>(v),
                GetResponse::Failed(m) => r matches Err(DbError::StrErr(e)) && e == m,
            },
    {
        match self {
            GetResponse::Done(value) => Ok(value),
            GetResponse::Failed(err) => Err(DbError::StrErr(err)),
        }
    }
}

impl SetResponse {
    /// The outcome of a write as the client reports it.
    pub fn into_result(self) -> (r: Result<(), DbError>)
        ensures
            match self {
                SetResponse::Done => r is Ok,
                SetResponse::Failed(m) => r matches Err(DbError::StrErr(e)) && e == m,
            },
    {
        match self {
            SetResponse::Done => Ok(()),
            SetResponse::Failed(err) => Err(DbError::StrErr(err)),
        }
    }
}

impl RemoveResponse {
    /// The outcome of a removal as the client reports it.
    pub fn into_result(self) -> (r: Result<(), DbError>)
        ensures
            match self {
                RemoveResponse::Done => r is Ok,
                RemoveResponse::Failed(m) => r matches Err(DbError::StrErr(e)) && e == m,
            },
    {
        match self {
            RemoveResponse::Done => Ok(()),
            RemoveResponse::Failed(err) => Err(DbError::StrErr(err)),
        }
    }
}

} // verus!
