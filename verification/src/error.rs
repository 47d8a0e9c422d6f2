use vstd::prelude::*;

verus! {

/// The closed set of failure kinds of the pipeline.
#[derive(Clone, Copy, Debug, PartialEq, Eq, Structural)]
pub enum Error {
    /// A connection failed or a response carried a non-success status.
    Transport,
    /// A size header was absent or unreadable, or decoding failed.
    Protocol,
    /// Reading, writing or inspecting a local file failed.
    Filesystem,
    /// A date code was malformed.
    Parse,
}

impl Error {
    /// A short name of the failure kind, in ASCII.
    pub fn label(&self) -> (r: &'static str)
        ensures
            r@ == (match *self {
                Error::Transport => "transport error"@,
                Error::Protocol => "protocol error"@,
                Error::Filesystem => "filesystem error"@,
                Error::Parse => "parse error"@,
            }),
    {
        match self {
            Error::Transport => "transport error",
            Error::Protocol => "protocol error",
            Error::Filesystem => "filesystem error",
            Error::Parse => "parse error",
        }
    }
}

} // verus!
