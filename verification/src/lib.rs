//! Rewrites the timestamps in lines of text into another timezone, and resolves the names of
//! timezones, with suggestions for a name that is none.

use crate::text::names_of;
use vstd::prelude::*;

pub mod calendar;
pub mod instant;
pub mod laws;
pub mod rizzy;
pub mod scanner;
pub mod suggest;
pub mod text;
pub mod timestamp;
pub mod timezones;

verus! {

/// What can go wrong while configuring or running a rewrite.
#[derive(Debug)]
pub enum RizzyError {
    /// The name is not in the timezone catalog; the second field lists the nearest names
    /// that are.
    InvalidTimezone(String, Vec<String>),
    /// The configuration contradicts itself or cannot be used; the field says how.
    InvalidArg(String),
    /// The text has the shape of a timestamp, or was given as one, and names no moment.
    MalformedTimestamp(String),
}

/// What `{:?}` writes for a list of strings: the list in square brackets, each string in
/// quotation marks with what would break them escaped, a comma and a space between.
pub uninterp spec fn debug_text(list: Seq<Seq<char>>) -> Seq<char>;

/// Writes `list` with `format!` as `{:?}` does.
///
/// Trusted: the text depends on the strings of the list alone.
#[verifier::external_body]
fn debug_of(list: &Vec<String>) -> (r: String)
    ensures
        r@ == debug_text(names_of(list@)),
{
    format!("{:?}", list)
}

impl RizzyError {
    /// What the error says to the person who caused it. It names the input that was wrong;
    /// for a timezone that the catalog lacks it lists the suggestions, as `{:?}` writes them.
    pub open spec fn text(self) -> Seq<char> {
        match self {
            RizzyError::InvalidTimezone(name, guesses) => "Unknown timezone '"@ + name@
                + "', did you mean: "@ + debug_text(names_of(guesses@)),
            RizzyError::InvalidArg(message) => message@,
            RizzyError::MalformedTimestamp(given) => "Malformed timestamp '"@ + given@ + "'"@,
        }
    }

    /// The text of the error.
    pub fn message(&self) -> (text: String)
        ensures
            text@ == self.text(),
    {
        match self {
            RizzyError::InvalidTimezone(name, guesses) => {
                let mut text = "Unknown timezone '".to_owned();
                text.append(name.as_str());
                text.append("', did you mean: ");
                text.append(debug_of(guesses).as_str());
                text
            },
            RizzyError::InvalidArg(message) => message.clone(),
            RizzyError::MalformedTimestamp(given) => {
                let mut text = "Malformed timestamp '".to_owned();
                text.append(given.as_str());
                text.append("'");
                text
            },
        }
    }
}

} // verus!
