//! Rendering of process-level failure reports.
//!
//! An uncaught runtime failure is modeled as a plain value: the panic
//! payload text and the source location, either of which may be missing.
//! Rendering produces the exact diagnostic body written to the error stream
//! and the diagnostics log.

use vstd::prelude::*;
use vstd::string::StringExecFns;

verus! {

/// A captured runtime failure: what was reported, and where.
pub struct FailureInfo {
    pub payload: Option<String>,
    pub location: Option<String>,
}

/// The payload text a report shows: the captured text, or a fixed marker
/// when the payload could not be read.
pub open spec fn payload_text(p: Option<String>) -> Seq<char> {
    match p {
        Option::Some(s) => s@,
        Option::None => "unknown panic payload"@,
    }
}

/// The location text a report shows.
pub open spec fn location_text(l: Option<String>) -> Seq<char> {
    match l {
        Option::Some(s) => s@,
        Option::None => "unknown location"@,
    }
}

impl FailureInfo {
    /// The diagnostic body for this failure: the tagged payload line
    /// followed by the source location line.
    pub fn render(&self) -> (r: String)
        ensures
            r@ == "[panic] "@ + payload_text(self.payload) + "\nlocation: "@ + location_text(
                self.location,
            ),
    {
        let mut r = "[panic] ".to_owned();
        match &self.payload {
            Option::Some(p) => r.append(p.as_str()),
            Option::None => r.append("unknown panic payload"),
        }
        r.append("\nlocation: ");
        match &self.location {
            Option::Some(l) => r.append(l.as_str()),
            Option::None => r.append("unknown location"),
        }
        r
    }
}

} // verus!
