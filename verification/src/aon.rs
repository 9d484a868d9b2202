//! The pure parts of the rules-archive search command: the search terms
//! sent to the engine, and the reply for what came back. The HTTP request
//! around them stays with the command layer.

use vstd::prelude::*;
use vstd::string::StringExecFns;

verus! {

/// The terms sent for a query: the user's words, pinned to the archive's
/// site and away from its second edition.
pub fn search_terms(query: &str) -> (r: String)
    ensures
        r@ == "site:aonprd.com -site:2e.aonprd.com "@ + query@,
{
    let mut r = "site:aonprd.com -site:2e.aonprd.com ".to_owned();
    r.append(query);
    r
}

/// The reply for a search outcome: the first result's address, or a plain
/// word that nothing was found.
pub fn search_reply(first_url: Option<String>) -> (r: String)
    ensures
        match first_url {
            Some(url) => r@ == url@,
            None => r@ == "No results."@,
        },
{
    match first_url {
        Some(url) => url,
        None => "No results.".to_owned(),
    }
}

} // verus!
