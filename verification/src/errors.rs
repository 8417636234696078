use vstd::prelude::*;

verus! {

/// The error type that every fallible operation of this crate returns.
/// It carries a human-readable message and nothing else.
#[derive(Debug)]
pub struct DungeonError {
    pub message: String,
}

impl DungeonError {
    pub fn new(msg: &str) -> (r: Self)
        ensures
            r.message@ == msg@,
    {
        DungeonError { message: msg.to_owned() }
    }
}

pub type DungeonResult<T> = Result<T, DungeonError>;

} // verus!
