use vstd::prelude::*;

use super::error::{Error, ErrorKind, LimitKind};

verus! {

/// The error reported when `limit` with ceiling `maximum` is exhausted.
pub open spec fn spec_exceeded(limit: LimitKind, maximum: usize) -> ErrorKind {
    ErrorKind::LimitExceeded { limit, maximum }
}

/// Fails when `value` exceeds `maximum`.
pub fn check(value: usize, maximum: usize, limit: LimitKind) -> (res: Result<(), Error>)
    ensures
        res is Ok <==> value <= maximum,
        res matches Err(e) ==> e.kind == spec_exceeded(limit, maximum) && e.offset_spec() is None,
{
    if value > maximum {
        return Err(Error::new(ErrorKind::LimitExceeded { limit, maximum }));
    }
    Ok(())
}

/// Adds `amount` to `current`, failing when the exact sum exceeds `maximum`;
/// arithmetic overflow is reported as the same limit error.
pub fn add(current: usize, amount: usize, maximum: usize, limit: LimitKind) -> (res: Result<usize, Error>)
    ensures
        res is Ok <==> current + amount <= maximum,
        res matches Ok(total) ==> total == current + amount,
        res matches Err(e) ==> e.kind == spec_exceeded(limit, maximum) && e.offset_spec() is None,
{
    let total = match current.checked_add(amount) {
        Some(t) => t,
        None => return Err(Error::new(ErrorKind::LimitExceeded { limit, maximum })),
    };
    check(total, maximum, limit)?;
    Ok(total)
}

} // verus!
