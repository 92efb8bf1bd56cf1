//! What is sent to wake a client that can be reached from the internet.
use crate::text::{law_trim_stops_at_last_other, trim_trailing, without_trailing};
use vstd::prelude::*;

verus! {

/// Where the request to wake a client goes.
pub open spec fn wake_url(reachable_url: Seq<char>) -> Seq<char> {
    without_trailing(reachable_url, '/') + "/kimaki/wake"@
}

/// The authorization header of a request by the holder of a token.
pub open spec fn bearer(token: Seq<char>) -> Seq<char> {
    "Bearer "@ + token
}

/// Where the request to wake a client goes.
pub fn wake_endpoint(reachable_url: &str) -> (r: String)
    ensures
        r@ == wake_url(reachable_url@),
{
    let mut out: String = trim_trailing(reachable_url, '/').to_owned();
    out.append("/kimaki/wake");
    out
}

/// The authorization header of a request by the holder of a token.
pub fn authorization_header(token: &str) -> (r: String)
    ensures
        r@ == bearer(token@),
{
    let mut out: String = "Bearer ".to_owned();
    out.append(token);
    out
}

/// A slash at the end of an address makes no difference.
pub proof fn law_trailing_slash_is_ignored(reachable_url: Seq<char>)
    ensures
        wake_url(reachable_url.push('/')) == wake_url(reachable_url),
{
    assert(reachable_url.push('/').drop_last() =~= reachable_url);
}

/// An address that does not end in a slash is used as it is.
pub proof fn law_address_is_kept(reachable_url: Seq<char>)
    requires
        reachable_url.len() > 0 ==> reachable_url.last() != '/',
    ensures
        wake_url(reachable_url) == reachable_url + "/kimaki/wake"@,
{
}

/// The endpoint is the address up to its last character that is no slash, with the
/// path behind it.
pub proof fn law_endpoint_is_below_the_address(reachable_url: Seq<char>)
    ensures
        exists|n: int|
            0 <= n <= reachable_url.len() && wake_url(reachable_url) == #[trigger]
                reachable_url.take(n) + "/kimaki/wake"@ && (n > 0 ==> reachable_url[n - 1] != '/')
                && forall|i: int|
                n <= i < reachable_url.len() ==> #[trigger] reachable_url[i] == '/',
    decreases reachable_url.len(),
{
    law_trim_stops_at_last_other(reachable_url, '/');
}

/// The header names the scheme and then the token as it is.
pub proof fn law_header_holds_the_token(token: Seq<char>)
    ensures
        bearer(token).take(7) == "Bearer "@,
        bearer(token).skip(7) == token,
{
    reveal_strlit("Bearer ");
    assert("Bearer "@.len() == 7);
    assert(bearer(token).take(7) =~= "Bearer "@);
    assert(bearer(token).skip(7) =~= token);
}

} // verus!
