//! How a module's process ended.
use crate::text;
use vstd::prelude::*;
use vstd::string::*;

verus! {

/// What a process was seen to end with.
#[derive(Debug, Clone, Copy, PartialEq, Eq, Structural)]
pub struct Exit {
    pub code: Option<i32>,
    pub signal: Option<i32>,
}

impl Exit {
    pub open spec fn text(self) -> Seq<char> {
        match (self.code, self.signal) {
            (Some(code), _) => "exited with code "@ + text::signed_decimal(code as int),
            (None, Some(signal)) => "was killed by signal "@ + text::signed_decimal(signal as int),
            (None, None) => "exited"@,
        }
    }

    /// The end in words.
    pub fn to_text(&self) -> (r: String)
        ensures
            r@ == self.text(),
    {
        match (self.code, self.signal) {
            (Some(code), _) => {
                let mut out = "exited with code ".to_owned();
                out.append(text::signed_decimal_string(code).as_str());
                out
            },
            (None, Some(signal)) => {
                let mut out = "was killed by signal ".to_owned();
                out.append(text::signed_decimal_string(signal).as_str());
                out
            },
            (None, None) => "exited".to_owned(),
        }
    }
}

/// The coarse signal that a restart policy takes.
#[derive(Debug, Clone, Copy, PartialEq, Eq, Structural)]
pub enum Stopped {
    /// No handshake came in time.
    StartupTimeout,
    /// The run ended in any other way.
    Exited,
}

/// An exit is told by its code, else by the signal that caused it, else by itself.
pub proof fn law_an_exit_is_told_by_its_cause(code: i32, signal: i32, either: Option<i32>)
    ensures
        (Exit { code: Some(code), signal: either }).text() == "exited with code "@
            + text::signed_decimal(code as int),
        (Exit { code: None, signal: Some(signal) }).text() == "was killed by signal "@
            + text::signed_decimal(signal as int),
        (Exit { code: None, signal: None }).text() == "exited"@,
{
}

} // verus!
