//! Error kinds of the driver.

use vstd::prelude::*;

verus! {

/// Error of a whole query, scan or command operation.
///
/// `Io` covers a link read, write or flush failure (including a timeout);
/// `Parse` covers bytes that are not valid text; `ParseIntData` and
/// `ParseFloatData` cover a field value that is not numeric in the
/// expected shape; `Shape` covers a line whose comma split yields fewer
/// fields than its decoder requires; `SyncTimeout` covers a handshake
/// whose confirming echo never arrives before the link gives out.
#[derive(Clone, Copy, Debug, PartialEq, Eq, Structural)]
pub enum GetDataError {
    Io,
    Parse,
    ParseIntData,
    ParseFloatData,
    Shape,
    SyncTimeout,
}

/// Error of a single field decoder.
///
/// `ParseInt` and `ParseFloat` cover a numeric portion that does not
/// parse in the decoder's shape; `Shape` covers a line whose comma split
/// yields fewer fields than the decoder requires.
#[derive(Clone, Copy, Debug, PartialEq, Eq, Structural)]
pub enum ParseNumberError {
    ParseInt,
    ParseFloat,
    Shape,
}

impl GetDataError {
    /// The operation-level error that a field decoder's error propagates as.
    pub open spec fn spec_from_parse(e: ParseNumberError) -> GetDataError {
        match e {
            ParseNumberError::ParseInt => GetDataError::ParseIntData,
            ParseNumberError::ParseFloat => GetDataError::ParseFloatData,
            ParseNumberError::Shape => GetDataError::Shape,
        }
    }

    /// Maps a field decoder's error to the operation-level error kind.
    pub fn from_parse(e: ParseNumberError) -> (r: GetDataError)
        ensures
            r == GetDataError::spec_from_parse(e),
    {
        match e {
            ParseNumberError::ParseInt => GetDataError::ParseIntData,
            ParseNumberError::ParseFloat => GetDataError::ParseFloatData,
            ParseNumberError::Shape => GetDataError::Shape,
        }
    }

    /// A short description, in place of a `Display` implementation.
    pub fn describe(&self) -> (r: &'static str)
        ensures
            r@.len() > 0,
            r@ == match self {
                GetDataError::Io => "error communicating with the robot"@,
                GetDataError::Parse => "error parsing bytes to string"@,
                GetDataError::ParseIntData => "error parsing string to int"@,
                GetDataError::ParseFloatData => "error parsing string to float"@,
                GetDataError::Shape => "line has too few comma-separated fields"@,
                GetDataError::SyncTimeout => "no confirming echo before the link gave out"@,
            },
    {
        let r = match self {
            GetDataError::Io => "error communicating with the robot",
            GetDataError::Parse => "error parsing bytes to string",
            GetDataError::ParseIntData => "error parsing string to int",
            GetDataError::ParseFloatData => "error parsing string to float",
            GetDataError::Shape => "line has too few comma-separated fields",
            GetDataError::SyncTimeout => "no confirming echo before the link gave out",
        };
        proof {
            reveal_strlit("error communicating with the robot");
            reveal_strlit("error parsing bytes to string");
            reveal_strlit("error parsing string to int");
            reveal_strlit("error parsing string to float");
            reveal_strlit("line has too few comma-separated fields");
            reveal_strlit("no confirming echo before the link gave out");
        }
        r
    }
}

} // verus!
