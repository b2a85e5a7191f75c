//! The errors that the library reports.

use vstd::prelude::*;
use vstd::string::*;

verus! {

/// Why a request was refused.
#[derive(Clone, Debug, PartialEq, Eq)]
pub enum Error {
    /// The update time of a feed item is missing or is not an RFC 3339 date and time.
    ParseTimestamp,
    /// A subscription of this name is stored already, under `old_url`.
    DuplicateName { name: String, new_url: String, old_url: String },
    /// Nothing that looks like a working feed was found at this address.
    InvalidRssFeedUrl(String),
}

impl Error {
    /// The text shown to the user for this error.
    pub open spec fn message_text(&self) -> Seq<char> {
        match self {
            Error::ParseTimestamp => "Failed to parse updated time stamp"@,
            Error::DuplicateName { name, new_url, old_url } => "Blog with name '"@ + name@
                + "' already stored (old url: "@ + old_url@ + ", new url: "@ + new_url@ + ")"@,
            Error::InvalidRssFeedUrl(url) => "'"@ + url@ + "' is not a valid RSS feed url"@,
        }
    }

    /// The text shown to the user for this error.
    pub fn message(&self) -> (out: String)
        ensures
            out@ == self.message_text(),
    {
        match self {
            Error::ParseTimestamp => String::from_str("Failed to parse updated time stamp"),
            Error::DuplicateName { name, new_url, old_url } => {
                let mut out = String::from_str("Blog with name '");
                out.append(name.as_str());
                out.append("' already stored (old url: ");
                out.append(old_url.as_str());
                out.append(", new url: ");
                out.append(new_url.as_str());
                out.append(")");
                out
            },
            Error::InvalidRssFeedUrl(url) => {
                let mut out = String::from_str("'");
                out.append(url.as_str());
                out.append("' is not a valid RSS feed url");
                out
            },
        }
    }
}

} // verus!
