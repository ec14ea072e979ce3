//! Steam API credentials.

use vstd::prelude::*;

verus! {

/// User configuration, stored as JSON with exactly these two fields.
#[derive(Clone, Debug)]
pub struct Config {
    pub steam_api_key: String,
    pub steam_id: String,
}

} // verus!
