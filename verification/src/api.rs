//! What a request to the service carries besides its body.

use vstd::prelude::*;
use vstd::string::StringExecFns;

verus! {

/// Where the service takes its queries.
pub const GRAPHQL_ENDPOINT: &'static str = "https://weightxreps.net/api/graphql";

/// The value of the `Authorization` header for an access token.
pub open spec fn bearer_text(token: Seq<char>) -> Seq<char> {
    "Bearer "@ + token
}

/// The value of the `Authorization` header for an access token: the word
/// `Bearer`, a space, and the token as it is.
pub fn bearer_header(token: &str) -> (value: String)
    ensures
        value@ == bearer_text(token@),
{
    let mut value: String = String::new();
    value.append("Bearer ");
    value.append(token);
    assert(Seq::<char>::empty() + "Bearer "@ + token@ == "Bearer "@ + token@);
    value
}

} // verus!
