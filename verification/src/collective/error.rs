//! Errors produced by collective operations.

use crate::text;
use vstd::prelude::*;

verus! {

/// Errors produced by collective operations.
#[derive(Debug)]
pub enum CollectiveError {
    /// An MPI call returned this status code.
    Mpi(i32),
    /// The fabric reported an error, rendered as text.
    Ucx(String),
    /// A buffer length does not fit the communicator size.
    BadShape,
    /// The rendezvous failed with this I/O error, rendered as text.
    Bootstrap(String),
    /// A message header was shorter than the fixed header size.
    BadHeader { got: usize, expected: usize },
    /// A peer or the caller broke the collective protocol.
    Protocol(&'static str),
}

/// The text of an error.
pub open spec fn error_text(e: CollectiveError) -> Seq<char> {
    match e {
        CollectiveError::Mpi(code) => "MPI call failed with status code "@ + text::decimal_int(
            code as int,
        ),
        CollectiveError::Ucx(what) => "UCX error: "@ + what@,
        CollectiveError::BadShape => "buffer length is not divisible by communicator size"@,
        CollectiveError::Bootstrap(what) => "bootstrap I/O failure: "@ + what@,
        CollectiveError::BadHeader { got, expected } => {
            "invalid AM header (size "@ + text::decimal(got as nat) + " bytes, expected "@
                + text::decimal(expected as nat) + ")"@
        },
        CollectiveError::Protocol(what) => "collective protocol error: "@ + what@,
    }
}

impl CollectiveError {
    /// The error as text.
    pub fn message(&self) -> (s: String)
        ensures
            s@ == error_text(*self),
    {
        let mut s = String::new();
        match self {
            CollectiveError::Mpi(code) => {
                s.append("MPI call failed with status code ");
                text::push_decimal_i32(&mut s, *code);
            },
            CollectiveError::Ucx(what) => {
                s.append("UCX error: ");
                s.append(what.as_str());
            },
            CollectiveError::BadShape => {
                s.append("buffer length is not divisible by communicator size");
            },
            CollectiveError::Bootstrap(what) => {
                s.append("bootstrap I/O failure: ");
                s.append(what.as_str());
            },
            CollectiveError::BadHeader { got, expected } => {
                s.append("invalid AM header (size ");
                text::push_decimal(&mut s, *got as u64);
                s.append(" bytes, expected ");
                text::push_decimal(&mut s, *expected as u64);
                s.append(")");
            },
            CollectiveError::Protocol(what) => {
                s.append("collective protocol error: ");
                s.append(what);
            },
        }
        assert(s@ =~= error_text(*self));
        s
    }
}


/// The text of an error says of what kind it is and ends with its particulars.
pub proof fn message_names_its_cause(code: i32, what: String, why: &'static str)
    ensures
        error_text(CollectiveError::Mpi(code)) == "MPI call failed with status code "@
            + text::decimal_int(code as int),
        error_text(CollectiveError::Ucx(what)) == "UCX error: "@ + what@,
        error_text(CollectiveError::BadShape)
            == "buffer length is not divisible by communicator size"@,
        error_text(CollectiveError::Bootstrap(what)) == "bootstrap I/O failure: "@ + what@,
        error_text(CollectiveError::Protocol(why)) == "collective protocol error: "@ + why@,
{
}

/// The text of a bad header names first what came and then what was expected.
pub proof fn header_message_names_both_sizes(got: usize, expected: usize)
    ensures
        ({
            let e = error_text(CollectiveError::BadHeader { got, expected });
            let front = "invalid AM header (size "@ + text::decimal(got as nat);
            let back = text::decimal(expected as nat) + ")"@;
            &&& e.take(front.len() as int) == front
            &&& e.skip(e.len() - back.len()) == back
            &&& e == front + " bytes, expected "@ + back
        }),
{
    let e = error_text(CollectiveError::BadHeader { got, expected });
    let front = "invalid AM header (size "@ + text::decimal(got as nat);
    let back = text::decimal(expected as nat) + ")"@;
    assert(e =~= front + " bytes, expected "@ + back);
    assert(e.take(front.len() as int) =~= front);
    assert(e.skip(e.len() - back.len()) =~= back);
}

} // verus!
