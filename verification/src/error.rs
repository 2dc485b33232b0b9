//! The library's error type.
//!
//! Variants that wrapped an error value of an outside crate in the
//! surrounding program carry that error's rendered message here, so the
//! library itself stays free of opaque foreign types.

use vstd::prelude::*;

verus! {

#[derive(Debug)]
pub enum MgdlError {
    Io(String),
    Toml(String),
    Reqwest(String),
    Rusqlite(String),
    Parse(String),
    Config(String),
    Db(String),
    Scrape(String),
    Downloader(String),
    Join(String),
}

impl MgdlError {
    /// The human-readable rendering of the error: a fixed prefix naming the
    /// error class, followed by the carried message.
    pub open spec fn spec_message(&self) -> Seq<char> {
        match self {
            MgdlError::Io(m) => "Io error: "@ + m@,
            MgdlError::Toml(m) => "Toml error: "@ + m@,
            MgdlError::Reqwest(m) => "Reqwest error: "@ + m@,
            MgdlError::Rusqlite(m) => "Rusqlite error: "@ + m@,
            MgdlError::Parse(m) => "Parse error: "@ + m@,
            MgdlError::Config(m) => "Config error: "@ + m@,
            MgdlError::Db(m) => "DB error: "@ + m@,
            MgdlError::Scrape(m) => "Scrape error: "@ + m@,
            MgdlError::Downloader(m) => "Downloader error: "@ + m@,
            MgdlError::Join(m) => "Join error: "@ + m@,
        }
    }

    /// Renders the error as a single line of text.
    pub fn message(&self) -> (r: String)
        ensures
            r@ == self.spec_message(),
    {
        match self {
            MgdlError::Io(m) => String::from_str("Io error: ").concat(m.as_str()),
            MgdlError::Toml(m) => String::from_str("Toml error: ").concat(m.as_str()),
            MgdlError::Reqwest(m) => String::from_str("Reqwest error: ").concat(m.as_str()),
            MgdlError::Rusqlite(m) => String::from_str("Rusqlite error: ").concat(m.as_str()),
            MgdlError::Parse(m) => String::from_str("Parse error: ").concat(m.as_str()),
            MgdlError::Config(m) => String::from_str("Config error: ").concat(m.as_str()),
            MgdlError::Db(m) => String::from_str("DB error: ").concat(m.as_str()),
            MgdlError::Scrape(m) => String::from_str("Scrape error: ").concat(m.as_str()),
            MgdlError::Downloader(m) => String::from_str("Downloader error: ").concat(m.as_str()),
            MgdlError::Join(m) => String::from_str("Join error: ").concat(m.as_str()),
        }
    }
}

} // verus!
