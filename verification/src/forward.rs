//! What the proxy does with a request once it has its host, path and headers:
//! where the host comes from, which reply an inline rule gives, and where an
//! upstream rule forwards to.

use vstd::prelude::*;
use crate::grammar::{SpecAction, first_match};
use crate::rules::{Action, Router, opt_str_view, opt_string_view, pairs_view};
use crate::text::{chars_of, string_from_chars};

verus! {

/// The part of `s` before its first `':'` (all of `s` when it has none).
pub open spec fn before_colon(s: Seq<char>) -> Seq<char>
    decreases s.len(),
{
    if s.len() == 0 {
        s
    } else if s[0] == ':' {
        seq![]
    } else {
        seq![s[0]] + before_colon(s.drop_first())
    }
}

/// The host a request is routed by: the `Host` header without its port, or
/// else the host of the request URI (HTTP/2 carries it there).
pub fn request_host(host_header: Option<&str>, uri_host: Option<&str>) -> (r: Option<String>)
    ensures
        opt_string_view(r) == match host_header {
            Some(h) => Some(before_colon(h@)),
            None => opt_str_view(uri_host),
        },
{
    match host_header {
        Some(h) => {
            let cs = chars_of(h);
            let mut out: Vec<char> = Vec::new();
            let mut i: usize = 0;
            assert(cs@.skip(0) =~= cs@);
            assert(out@ + before_colon(cs@) =~= before_colon(cs@));
            while i < cs.len() && cs[i] != ':'
                invariant
                    i <= cs.len(),
                    before_colon(cs@) == out@ + before_colon(cs@.skip(i as int)),
                decreases cs.len() - i,
            {
                assert(cs@.skip(i as int).drop_first() =~= cs@.skip(i + 1));
                assert(cs@.skip(i as int)[0] == cs@[i as int]);
                out.push(cs[i]);
                assert(out@ + before_colon(cs@.skip(i + 1)) =~= out@.drop_last() + (seq![cs@[i as int]]
                    + before_colon(cs@.skip(i + 1))));
                i += 1;
            }
            assert(before_colon(cs@.skip(i as int)) =~= Seq::<char>::empty()) by {
                if i < cs.len() {
                    assert(cs@.skip(i as int)[0] == ':');
                }
            }
            assert(out@ + Seq::<char>::empty() =~= out@);
            Some(string_from_chars(out.as_slice()))
        },
        None => match uri_host {
            Some(u) => Some(u.to_owned()),
            None => None,
        },
    }
}

/// The status an inline `respond` rule answers with: its code when that is a
/// valid HTTP status (100 through 999, as `http::StatusCode::from_u16`
/// accepts), else 200.
pub open spec fn spec_respond_status(code: u16) -> u16 {
    if 100 <= code && code <= 999 {
        code
    } else {
        200
    }
}

pub fn respond_status(code: u16) -> (s: u16)
    ensures
        s == spec_respond_status(code),
{
    if 100 <= code && code <= 999 {
        code
    } else {
        200
    }
}

/// What the proxy does with a request.
#[derive(Debug)]
pub enum Reply {
    /// Answer at once with this status and body.
    Inline(u16, String),
    /// Forward to this upstream URL.
    Forward(String),
}

/// The body of the answer when no rule matches.
pub open spec fn no_route_text() -> Seq<char> {
    "rift: no route matched\n"@
}

/// The status of the answer when no rule matches.
pub open spec fn no_route_status() -> u16 {
    502
}

/// Routes a request and says how to answer it: a `respond` rule answers
/// inline, an `upstream` rule forwards, and when no rule matches the answer is
/// a 502.
pub fn answer(router: &Router, host: Option<&str>, path: &str, headers: &[(String, String)]) -> (r:
    Reply)
    ensures
        match first_match(router@, opt_str_view(host), path@, pairs_view(headers@), 0) {
            Some(i) => match router@[i].action {
                SpecAction::Respond(c, b) => r matches Reply::Inline(s, body) && s
                    == spec_respond_status(c) && body@ == b,
                SpecAction::Upstream(u) => r matches Reply::Forward(x) && x@ == u,
            },
            None => r matches Reply::Inline(s, body) && s == no_route_status() && body@
                == no_route_text(),
        },
{
    let found = router.route(host, path, headers);
    proof {
        crate::laws::first_match_wins(router@, opt_str_view(host), path@, pairs_view(headers@));
        if let Some(i) = first_match(router@, opt_str_view(host), path@, pairs_view(headers@), 0) {
            assert(router@[i] == router.rules@[i]@);
        }
    }
    match found {
        Some(Action::Respond(code, body)) => Reply::Inline(respond_status(*code), body.clone()),
        Some(Action::Upstream(url)) => Reply::Forward(url.clone()),
        None => Reply::Inline(502, "rift: no route matched\n".to_owned()),
    }
}

/// What `url.parse::<hyper::Uri>()` gives: `None` when the URL does not parse,
/// else its scheme and authority, each when present.
pub uninterp spec fn uri_parts(url: Seq<char>) -> Option<(Option<Seq<char>>, Option<Seq<char>>)>;

/// Calls `str::parse::<hyper::Uri>` and reads the scheme (`Uri::scheme_str`)
/// and authority (`Uri::authority`) of the result. The contract claims that
/// these are what `uri_parts` names.
#[verifier::external_body]
fn parse_uri(url: &str) -> (r: Option<(Option<String>, Option<String>)>)
    ensures
        match uri_parts(url@) {
            None => r is None,
            Some((s, a)) => r matches Some((rs, ra)) && opt_string_view(rs) == s
                && opt_string_view(ra) == a,
        },
{
    match url.parse::<hyper::Uri>() {
        Ok(u) => Some(
            (u.scheme_str().map(|s| s.to_string()), u.authority().map(|a| a.as_str().to_string())),
        ),
        Err(_) => None,
    }
}

/// Where a request goes upstream: scheme, authority (also the new `Host`
/// header) and the request's path and query.
#[derive(Debug)]
pub struct UpstreamTarget {
    pub scheme: String,
    pub authority: String,
    pub path_and_query: String,
}

/// Why a request could not be forwarded.
#[derive(Debug, Clone, Copy, PartialEq, Eq, Structural)]
pub enum UpstreamError {
    /// The upstream URL does not parse.
    BadUrl,
    /// The upstream URL names no host.
    NoHost,
    /// The upstream request URI could not be built.
    CannotBuild,
    /// The upstream did not answer.
    Unreachable,
}

/// Works out where to forward a request whose path and query are
/// `path_and_query`, for the rule's upstream `url`: the URL's scheme (`http`
/// when it has none), its authority, which must be there, and the request's
/// path and query (`/` when it has none).
pub fn upstream_target(url: &str, path_and_query: Option<&str>) -> (r: Result<
    UpstreamTarget,
    UpstreamError,
>)
    ensures
        match uri_parts(url@) {
            None => r matches Err(UpstreamError::BadUrl),
            Some((_, None)) => r matches Err(UpstreamError::NoHost),
            Some((scheme, Some(authority))) => r matches Ok(t) && t.authority@ == authority
                && t.scheme@ == (match scheme {
                Some(x) => x,
                None => "http"@,
            }) && t.path_and_query@ == (match path_and_query {
                Some(p) => p@,
                None => "/"@,
            }),
        },
{
    match parse_uri(url) {
        None => Err(UpstreamError::BadUrl),
        Some((scheme, authority)) => match authority {
            None => Err(UpstreamError::NoHost),
            Some(authority) => {
                let scheme = match scheme {
                    Some(s) => s,
                    None => "http".to_owned(),
                };
                let path_and_query = match path_and_query {
                    Some(p) => p.to_owned(),
                    None => "/".to_owned(),
                };
                Ok(UpstreamTarget { scheme, authority, path_and_query })
            },
        },
    }
}

/// The status of the answer for each forwarding failure. A bad upstream URL
/// and an unreachable upstream are answered with 502.
pub open spec fn upstream_error_status(e: UpstreamError) -> u16 {
    match e {
        UpstreamError::CannotBuild => 500,
        _ => 502,
    }
}

/// The body of the answer for each forwarding failure.
pub open spec fn upstream_error_text(e: UpstreamError) -> Seq<char> {
    match e {
        UpstreamError::BadUrl => "rift: bad upstream url\n"@,
        UpstreamError::NoHost => "rift: upstream has no host\n"@,
        UpstreamError::CannotBuild => "rift: could not build upstream uri\n"@,
        UpstreamError::Unreachable => "rift: upstream unreachable\n"@,
    }
}

/// The answer for a forwarding failure: its status and body.
pub fn upstream_error_reply(e: UpstreamError) -> (r: (u16, String))
    ensures
        r.0 == upstream_error_status(e),
        r.1@ == upstream_error_text(e),
{
    match e {
        UpstreamError::BadUrl => (502, "rift: bad upstream url\n".to_owned()),
        UpstreamError::NoHost => (502, "rift: upstream has no host\n".to_owned()),
        UpstreamError::CannotBuild => (500, "rift: could not build upstream uri\n".to_owned()),
        UpstreamError::Unreachable => (502, "rift: upstream unreachable\n".to_owned()),
    }
}

} // verus!
