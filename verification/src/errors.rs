//! The fatal conditions that abort a whole run.

use vstd::prelude::*;

verus! {

/// A fatal condition. Any of these aborts processing of the entire input;
/// there is no per-match recovery.
#[derive(Clone, Copy, Debug, PartialEq, Eq, Structural)]
pub enum LogError {
    /// A recognized-keyword line has too few fields or an unparseable
    /// numeric field.
    MalformedLine,
    /// An identity-change payload does not split into at least three
    /// backslash-delimited parts.
    MalformedIdentity,
    /// A begin or identity-change event names an id with no player record.
    UnknownPlayer,
    /// A kill names an attacker id with no player record.
    UnknownAttacker,
    /// An environment kill names a victim id with no player record.
    UnknownVictim,
}

impl LogError {
    /// A diagnostic line for the error stream.
    pub fn message(&self) -> (m: &'static str)
        ensures
            match *self {
                LogError::MalformedLine => m@ == "malformed log line"@,
                LogError::MalformedIdentity => m@ == "could not parse user info"@,
                LogError::UnknownPlayer => m@ == "player not found"@,
                LogError::UnknownAttacker => m@ == "killer player not found"@,
                LogError::UnknownVictim => m@ == "killed player not found"@,
            },
    {
        match *self {
            LogError::MalformedLine => "malformed log line",
            LogError::MalformedIdentity => "could not parse user info",
            LogError::UnknownPlayer => "player not found",
            LogError::UnknownAttacker => "killer player not found",
            LogError::UnknownVictim => "killed player not found",
        }
    }
}

/// The result of a state transition that may fail.
pub open spec fn res_of(e: Option<LogError>) -> Result<(), LogError> {
    match e {
        None => Ok(()),
        Some(x) => Err(x),
    }
}

} // verus!
