use vstd::prelude::*;

verus! {

/// Exit code carried by every failure of the generation store.
pub const GEN_ERROR: i32 = 12;

/// A failure with a message for the user and the exit code of its class.
#[derive(Debug)]
pub struct Error {
    pub msg: String,
    pub code: i32,
}

impl Error {
    /// A failure with the given message and exit code.
    pub fn new(msg: &str, code: i32) -> (err: Self)
        ensures
            err.msg@ == msg@,
            err.code == code,
    {
        Self { msg: String::from_str(msg), code }
    }
}

} // verus!
