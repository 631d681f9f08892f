//! Console log format selection.

use crate::text::{ascii_lower, ascii_lower_text, str_eq, trim, trim_text};
use vstd::prelude::*;

verus! {

/// Console output format.
#[derive(Debug, Clone, Copy, PartialEq, Eq, Structural)]
pub enum ConsoleFormat {
    /// Structured JSON lines (log-shipper friendly).
    Json,
    /// `logfmt` style: `level=info target=... message="..."`.
    Logfmt,
}

impl Default for ConsoleFormat {
    fn default() -> (r: Self)
        ensures
            r == ConsoleFormat::Logfmt,
    {
        ConsoleFormat::Logfmt
    }
}

/// Error returned when parsing a console format name: the normalized name.
#[derive(Debug)]
pub struct ParseFormatError(pub String);

/// A format name as compared: trimmed and ASCII lower-cased.
pub open spec fn normalized(s: Seq<char>) -> Seq<char> {
    ascii_lower(trim(s))
}

impl ConsoleFormat {
    /// Parse a `[log] format` value (case-insensitive, surrounding whitespace
    /// ignored).
    pub fn parse(s: &str) -> (r: Result<ConsoleFormat, ParseFormatError>)
        ensures
            normalized(s@) == "json"@ ==> r == Ok::<ConsoleFormat, ParseFormatError>(ConsoleFormat::Json),
            normalized(s@) == "logfmt"@ ==> r == Ok::<ConsoleFormat, ParseFormatError>(ConsoleFormat::Logfmt),
            (normalized(s@) != "json"@ && normalized(s@) != "logfmt"@) ==> (r matches Err(ParseFormatError(e))
                && e@ == normalized(s@)),
    {
        proof {
            reveal_strlit("json");
            reveal_strlit("logfmt");
            assert("logfmt"@.len() != "json"@.len());
        }
        let t = trim_text(s);
        let lower = ascii_lower_text(t.as_str());
        if str_eq(lower.as_str(), "json") {
            Ok(ConsoleFormat::Json)
        } else if str_eq(lower.as_str(), "logfmt") {
            Ok(ConsoleFormat::Logfmt)
        } else {
            Err(ParseFormatError(lower))
        }
    }
}

impl std::str::FromStr for ConsoleFormat {
    type Err = ParseFormatError;

    fn from_str(s: &str) -> (r: Result<ConsoleFormat, ParseFormatError>)
        ensures
            normalized(s@) == "json"@ ==> r == Ok::<ConsoleFormat, ParseFormatError>(ConsoleFormat::Json),
            normalized(s@) == "logfmt"@ ==> r == Ok::<ConsoleFormat, ParseFormatError>(ConsoleFormat::Logfmt),
            (normalized(s@) != "json"@ && normalized(s@) != "logfmt"@) ==> (r matches Err(ParseFormatError(e))
                && e@ == normalized(s@)),
    {
        ConsoleFormat::parse(s)
    }
}

} // verus!
