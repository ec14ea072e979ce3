//! The Steam account named at setup: a profile link, a vanity name or a
//! numeric Steam ID, and the Web API's answer that resolves a vanity name.

use vstd::prelude::*;
use vstd::string::StringExecFns;

use crate::json::{as_str, field, field_of, get, json_document, parse_json, text_of, Json};
use crate::text::{chars_of, string_from_chars, trim, trimmed};

verus! {

/// The `ResolveVanityURL` endpoint of the Steam Web API.
pub const STEAM_RESOLVE_URL: &'static str = "https://api.steampowered.com/ISteamUser/ResolveVanityURL/v1/";

/// What the user named at setup.
#[derive(Debug)]
pub enum SteamProfile {
    /// A numeric Steam ID, used as it is.
    Id(String),
    /// A vanity name, still to be resolved to a Steam ID.
    Vanity(String),
}

/// `s` without its front `p`, when it starts with `p`.
pub open spec fn after_prefix(s: Seq<char>, p: Seq<char>) -> Option<Seq<char>> {
    if p.len() <= s.len() && s.subrange(0, p.len() as int) == p {
        Some(s.subrange(p.len() as int, s.len() as int))
    } else {
        None
    }
}

/// `s` without its front `p` where it starts with `p`, else `s`.
pub open spec fn drop_prefix(s: Seq<char>, p: Seq<char>) -> Seq<char> {
    match after_prefix(s, p) {
        Some(rest) => rest,
        None => s,
    }
}

/// A link without its `https://` or `http://` and then its `www.`.
pub open spec fn profile_address(s: Seq<char>) -> Seq<char> {
    let a = match after_prefix(s, "https://"@) {
        Some(rest) => rest,
        None => drop_prefix(s, "http://"@),
    };
    drop_prefix(a, "www."@)
}

/// `s` up to its first `/`.
pub open spec fn first_segment(s: Seq<char>) -> Seq<char>
    decreases s.len(),
{
    if s.len() == 0 || s[0] == '/' {
        Seq::empty()
    } else {
        seq![s[0]] + first_segment(s.drop_first())
    }
}

/// `s` is a non-empty run of decimal digits.
pub open spec fn all_digits(s: Seq<char>) -> bool {
    s.len() > 0 && forall|i: int| 0 <= i < s.len() ==> '0' <= #[trigger] s[i] <= '9'
}

/// What a setup answer names, as (is a numeric ID, the ID or vanity name):
/// a `steamcommunity.com/profiles/<id>` link gives the ID, a
/// `steamcommunity.com/id/<name>` link the vanity name; otherwise the
/// trimmed answer is an ID when it is all digits and a vanity name if not.
pub open spec fn steam_profile_of(input: Seq<char>) -> (bool, Seq<char>) {
    let t = trimmed(input);
    let u = profile_address(t);
    match after_prefix(u, "steamcommunity.com/profiles/"@) {
        Some(rest) => (true, first_segment(rest)),
        None => match after_prefix(u, "steamcommunity.com/id/"@) {
            Some(rest) => (false, first_segment(rest)),
            None => (all_digits(t), t),
        },
    }
}

/// The position after `p` when `v` has `p` at `at`.
fn skip_prefix(v: &Vec<char>, at: usize, p: &str) -> (r: Option<usize>)
    requires
        at <= v.len(),
    ensures
        match r {
            Some(k) => at <= k <= v.len() && after_prefix(v@.subrange(at as int, v@.len() as int), p@) == Some(
                v@.subrange(k as int, v@.len() as int),
            ),
            None => after_prefix(v@.subrange(at as int, v@.len() as int), p@) is None,
        },
{
    let pc = chars_of(p);
    let n = v.len();
    let ghost s = v@.subrange(at as int, n as int);
    if pc.len() > n - at {
        return None;
    }
    let mut i: usize = 0;
    while i < pc.len()
        invariant
            i <= pc@.len(),
            at + pc@.len() <= n,
            n == v@.len(),
            pc@ == p@,
            s == v@.subrange(at as int, n as int),
            forall|k: int| 0 <= k < i ==> v@[at + k] == pc@[k],
        decreases pc@.len() - i,
    {
        if v[at + i] != pc[i] {
            assert(s.subrange(0, pc@.len() as int)[i as int] != p@[i as int]);
            return None;
        }
        i += 1;
    }
    assert(s.subrange(0, pc@.len() as int) =~= p@);
    assert(s.subrange(pc@.len() as int, s.len() as int) =~= v@.subrange(at + pc@.len(), n as int));
    Some(at + pc.len())
}

/// `first_segment` is the part before the first `/`.
proof fn lemma_first_segment(s: Seq<char>, k: int)
    requires
        0 <= k <= s.len(),
        forall|i: int| 0 <= i < k ==> s[i] != '/',
        k == s.len() || s[k] == '/',
    ensures
        first_segment(s) == s.subrange(0, k),
    decreases s.len(),
{
    if k > 0 {
        let t = s.drop_first();
        assert forall|i: int| 0 <= i < k - 1 implies t[i] != '/' by {
            assert(t[i] == s[i + 1]);
        }
        if k < s.len() {
            assert(t[k - 1] == s[k]);
        }
        lemma_first_segment(t, k - 1);
        assert(seq![s[0]] + t.subrange(0, k - 1) =~= s.subrange(0, k));
    }
}

/// The text of `v` from `at` up to the next `/`.
fn segment(v: &Vec<char>, at: usize) -> (r: String)
    requires
        at <= v.len(),
    ensures
        r@ == first_segment(v@.subrange(at as int, v@.len() as int)),
{
    let n = v.len();
    let mut j: usize = at;
    while j < n && v[j] != '/'
        invariant
            at <= j <= n,
            n == v@.len(),
            forall|i: int| at <= i < j ==> v@[i] != '/',
        decreases n - j,
    {
        j += 1;
    }
    let ghost s = v@.subrange(at as int, n as int);
    assert forall|i: int| 0 <= i < j - at implies s[i] != '/' by {
        assert(s[i] == v@[at + i]);
    }
    proof {
        if j < n {
            assert(s[j - at] == v@[j as int]);
        }
        lemma_first_segment(s, j - at);
    }
    assert(s.subrange(0, j - at) =~= v@.subrange(at as int, j as int));
    string_from_chars(v, at, j)
}

/// Whether `v` is a non-empty run of decimal digits.
fn digits_only(v: &Vec<char>) -> (r: bool)
    ensures
        r == all_digits(v@),
{
    if v.len() == 0 {
        return false;
    }
    let mut i: usize = 0;
    while i < v.len()
        invariant
            i <= v@.len(),
            forall|k: int| 0 <= k < i ==> '0' <= #[trigger] v@[k] <= '9',
        decreases v@.len() - i,
    {
        if v[i] < '0' || v[i] > '9' {
            return false;
        }
        i += 1;
    }
    true
}

/// Reads a setup answer: a Steam profile link, a vanity name or a numeric
/// Steam ID.
pub fn steam_profile(input: &str) -> (r: SteamProfile)
    ensures
        match r {
            SteamProfile::Id(id) => steam_profile_of(input@) == (true, id@),
            SteamProfile::Vanity(name) => steam_profile_of(input@) == (false, name@),
        },
{
    let t = trim(input);
    let v = chars_of(t.as_str());
    let n = v.len();
    let ghost tv = trimmed(input@);
    assert(v@.subrange(0, n as int) =~= tv);
    let a = match skip_prefix(&v, 0, "https://") {
        Some(k) => k,
        None => match skip_prefix(&v, 0, "http://") {
            Some(k) => k,
            None => 0,
        },
    };
    let b = match skip_prefix(&v, a, "www.") {
        Some(k) => k,
        None => a,
    };
    assert(v@.subrange(b as int, n as int) == profile_address(tv));
    match skip_prefix(&v, b, "steamcommunity.com/profiles/") {
        Some(c) => SteamProfile::Id(segment(&v, c)),
        None => match skip_prefix(&v, b, "steamcommunity.com/id/") {
            Some(c) => SteamProfile::Vanity(segment(&v, c)),
            None => {
                let whole = string_from_chars(&v, 0, n);
                if digits_only(&v) {
                    SteamProfile::Id(whole)
                } else {
                    SteamProfile::Vanity(whole)
                }
            },
        },
    }
}

/// The request URL that resolves `vanity` to a Steam ID with `api_key`.
pub open spec fn resolve_request_url(api_key: Seq<char>, vanity: Seq<char>) -> Seq<char> {
    STEAM_RESOLVE_URL@ + "?key="@ + api_key + "&vanityurl="@ + vanity
}

/// The URL that resolves `vanity` to a Steam ID with `api_key`.
pub fn resolve_url(api_key: &str, vanity: &str) -> (r: String)
    ensures
        r@ == resolve_request_url(api_key@, vanity@),
{
    let mut url = String::from_str(STEAM_RESOLVE_URL);
    url.append("?key=");
    url.append(api_key);
    url.append("&vanityurl=");
    url.append(vanity);
    url
}

/// What a `ResolveVanityURL` response body gives: the string
/// `response.steamid`, or an error when there is none or the body is not
/// JSON.
pub open spec fn resolved_id(body: Seq<char>) -> Result<Seq<char>, Seq<char>> {
    match json_document(body) {
        Ok(d) => match text_of(field_of(field(d, "response"@), "steamid"@)) {
            Some(id) => Ok(id),
            None => Err("no Steam ID found for that vanity name"@),
        },
        Err(e) => Err("Failed to parse response: "@ + e),
    }
}

/// The Steam ID in a `ResolveVanityURL` response body.
pub fn parse_resolve_body(body: &str) -> (r: Result<String, String>)
    ensures
        match r {
            Ok(id) => resolved_id(body@) == Ok::<Seq<char>, Seq<char>>(id@),
            Err(m) => resolved_id(body@) == Err::<Seq<char>, Seq<char>>(m@),
        },
{
    match parse_json(body) {
        Ok(d) => {
            let found: Option<&str> = match get(&d, "response") {
                Some(resp) => match get(resp, "steamid") {
                    Some(id) => as_str(id),
                    None => None,
                },
                None => None,
            };
            match found {
                Some(id) => Ok(String::from_str(id)),
                None => Err(String::from_str("no Steam ID found for that vanity name")),
            }
        },
        Err(e) => {
            let mut m = String::from_str("Failed to parse response: ");
            m.append(e.as_str());
            Err(m)
        },
    }
}

} // verus!
