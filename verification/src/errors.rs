use vstd::prelude::*;

verus! {

/// Error type for every shape, axis and index failure of the library.
///
/// All shape errors are returned, never silently coerced; the message
/// records what went wrong for the caller.
#[derive(Debug)]
pub struct DimError {
    pub details: String,
}

impl DimError {
    pub fn new(msg: &str) -> (e: DimError)
        ensures
            e.details@ == msg@,
    {
        DimError { details: msg.to_string() }
    }
}

} // verus!
