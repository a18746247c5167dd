use vstd::prelude::*;

use crate::error::DbError;

verus! {

/// The engine the server runs with, given the engine asked for on the command
/// line and the one recorded in the working directory (empty if none is): the
/// one asked for, else the recorded one. `None` where a recorded engine
/// differs from the one asked for, which the server refuses.
pub fn resolve_engine(requested: Option<String>, stored: String) -> (r: Option<String>)
    ensures
        ({
            let engine = match requested {
                Some(e) => e@,
                None => stored@,
            };
            &&& r is None <==> (stored@.len() > 0 && engine != stored@)
            &&& r matches Some(e) ==> e@ == engine
        }),
{
    let engine = match requested {
        Some(e) => e,
        None => stored.clone(),
    };
    if stored.as_str().unicode_len() > 0 && engine != stored {
        None
    } else {
        Some(engine)
    }
}

/// Starts serving; there is nothing to set up, so it succeeds.
pub fn server_start() -> (r: Result<(), DbError>)
    ensures
        r is Ok,
{
    Ok(())
}

} // verus!
