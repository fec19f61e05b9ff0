use crate::text::{chars_of, string_of};
use vstd::prelude::*;

verus! {

/// The kinds of failure the core reports, each with a human-readable payload.
#[derive(Debug, Clone, PartialEq, Eq)]
pub enum Error {
    /// The database returned an error.
    Database(String),
    /// The connection pool could not hand out a connection.
    Pool(String),
    /// A batch or a value in it is ill-formed.
    Parse(String),
    /// A lock guarding shared state was poisoned.
    Lock(String),
    /// An environment variable could not be read.
    Env(String),
    /// A resource file read at startup is ill-formed.
    Config(String),
    /// A series or label that was expected to exist is absent.
    NotFound(String),
}

impl Error {
    /// Whether a client may retry the request that failed with this error.
    pub fn is_retryable(&self) -> (r: bool)
        ensures
            r == !(self is Parse),
    {
        match self {
            Error::Parse(_) => false,
            _ => true,
        }
    }

    /// The payload of the error.
    pub open spec fn payload(&self) -> Seq<char> {
        match self {
            Error::Database(s) => s@,
            Error::Pool(s) => s@,
            Error::Parse(s) => s@,
            Error::Lock(s) => s@,
            Error::Env(s) => s@,
            Error::Config(s) => s@,
            Error::NotFound(s) => s@,
        }
    }

    /// The description of the error: a phrase naming its kind, then the payload.
    pub open spec fn describe_spec(&self) -> Seq<char> {
        kind_prefix(*self) + self.payload()
    }

    pub fn describe(&self) -> (r: String)
        ensures
            r@ == self.describe_spec(),
    {
        let (prefix, payload) = match self {
            Error::Database(s) => ("postgres returned an error: ", s),
            Error::Pool(s) => ("database pool could not return a connection: ", s),
            Error::Parse(s) => ("parse error: ", s),
            Error::Lock(s) => ("RwLock was poisoned: ", s),
            Error::Env(s) => ("could not read environment variable: ", s),
            Error::Config(s) => ("bad resource file: ", s),
            Error::NotFound(s) => ("not found: ", s),
        };
        let mut out = chars_of(prefix);
        let tail = chars_of(payload.as_str());
        let ghost start = out@;
        let mut i: usize = 0;
        while i < tail.len()
            invariant
                0 <= i <= tail@.len(),
                out@ == start + tail@.take(i as int),
            decreases tail@.len() - i,
        {
            out.push(tail[i]);
            assert(tail@.take(i as int + 1) =~= tail@.take(i as int).push(tail@[i as int]));
            i += 1;
        }
        assert(tail@.take(tail@.len() as int) =~= tail@);
        proof {
            assert(start == kind_prefix(*self));
        }
        string_of(out.as_slice())
    }
}

/// The phrase that opens the description of each kind of error.
pub open spec fn kind_prefix(e: Error) -> Seq<char> {
    match e {
        Error::Database(_) => "postgres returned an error: "@,
        Error::Pool(_) => "database pool could not return a connection: "@,
        Error::Parse(_) => "parse error: "@,
        Error::Lock(_) => "RwLock was poisoned: "@,
        Error::Env(_) => "could not read environment variable: "@,
        Error::Config(_) => "bad resource file: "@,
        Error::NotFound(_) => "not found: "@,
    }
}

} // verus!
