//! The API keys the tools use, and where they are kept.

use vstd::prelude::*;

verus! {

/// The keys for the XMLTV listings API and for RapidAPI.
#[derive(Debug)]
pub struct Credentials {
    pub xml_tv_listings_api_key: String,
    pub rapidapi_key: String,
}

impl Credentials {
    /// The file that the credentials are read from by default: `creds.toml`
    /// in the working directory.
    pub fn from_default_file() -> (path: &'static str)
        ensures
            path@ == "creds.toml"@,
    {
        "creds.toml"
    }
}

} // verus!
