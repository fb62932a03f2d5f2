//! The error kinds the converter reports.
//!
//! Every failure is terminal and carries just what its message needs:
//! a missing field's name, a currency code, or nothing.

use vstd::prelude::*;
use vstd::string::*;

verus! {

#[derive(Debug, PartialEq, Eq)]
pub enum CurError {
    /// The positional amount was not given.
    MissingValue,
    /// `--from` was not given.
    MissingFrom,
    /// `--to` was not given.
    MissingTo,
    /// The amount is negative.
    NegativeValue,
    /// The rate table could not be fetched or decoded.
    NetworkConvert,
    /// The currency catalog could not be fetched or decoded.
    NetworkList,
    /// The rate table has no entry for the source currency.
    ApiSource(String),
    /// The source table has no entry for the destination currency.
    ApiDest(String),
    /// The destination entry is not a number the converter can read.
    NotANumber,
    /// The catalog document is not an object.
    UnexpectedFormat,
    /// The exact product does not fit the decimal representation.
    TooLarge,
}

impl CurError {
    /// The locally-checked-input failures: reported before any fetch.
    pub open spec fn is_validation(self) -> bool {
        match self {
            CurError::MissingValue => true,
            CurError::MissingFrom => true,
            CurError::MissingTo => true,
            CurError::NegativeValue => true,
            _ => false,
        }
    }

    pub open spec fn spec_message(self) -> Seq<char> {
        match self {
            CurError::MissingValue => "Value is required for conversion"@,
            CurError::MissingFrom => "--from is required for conversion"@,
            CurError::MissingTo => "--to is required for conversion"@,
            CurError::NegativeValue => "Value must be a positive number."@,
            CurError::NetworkConvert =>
                "Failed to connect with API server. Check your internet connection."@,
            CurError::NetworkList =>
                "Failed to get currencies. Check your internet connection."@,
            CurError::ApiSource(code) => "API error with base currency: "@ + code@,
            CurError::ApiDest(code) => "API error with convert to currency: "@ + code@,
            CurError::NotANumber =>
                "Error while formating data from API: price is not a number?"@,
            CurError::UnexpectedFormat => "Unexpected data format from API."@,
            CurError::TooLarge => "Conversion result is too large to represent."@,
        }
    }

    /// The user-facing message of this error.
    pub fn message(&self) -> (r: String)
        ensures
            r@ == self.spec_message(),
    {
        match self {
            CurError::MissingValue => String::from_str("Value is required for conversion"),
            CurError::MissingFrom => String::from_str("--from is required for conversion"),
            CurError::MissingTo => String::from_str("--to is required for conversion"),
            CurError::NegativeValue => String::from_str("Value must be a positive number."),
            CurError::NetworkConvert => String::from_str(
                "Failed to connect with API server. Check your internet connection.",
            ),
            CurError::NetworkList => String::from_str(
                "Failed to get currencies. Check your internet connection.",
            ),
            CurError::ApiSource(code) => {
                let mut m = String::from_str("API error with base currency: ");
                m.append(code.as_str());
                m
            },
            CurError::ApiDest(code) => {
                let mut m = String::from_str("API error with convert to currency: ");
                m.append(code.as_str());
                m
            },
            CurError::NotANumber => String::from_str(
                "Error while formating data from API: price is not a number?",
            ),
            CurError::UnexpectedFormat => String::from_str("Unexpected data format from API."),
            CurError::TooLarge => String::from_str(
                "Conversion result is too large to represent.",
            ),
        }
    }
}

} // verus!
