//! Pure validation for the smoke slice: a `send_ping` message must be
//! non-empty.

use vstd::prelude::*;

verus! {

/// A `send_ping` message must be non-empty.
pub fn validate_ping_message(message: &str) -> (r: Result<(), &'static str>)
    ensures
        r is Ok <==> message@.len() > 0,
        r matches Err(e) ==> e@ == "message must not be empty"@,
{
    if message.is_empty() {
        proof {
            reveal_strlit("message must not be empty");
        }
        return Err("message must not be empty");
    }
    Ok(())
}

} // verus!
