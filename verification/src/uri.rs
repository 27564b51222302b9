//! Upstream URIs as their parts, and redirect target composition.

use crate::ripe_geo::{find_char, find_char_exec};
use vstd::prelude::*;

verus! {

/// An absolute URI split into the parts the redirector uses.
#[derive(Debug)]
pub struct UriParts {
    pub scheme: String,
    pub authority: String,
    pub path: String,
}

/// What the URI parser yields for a text: scheme, authority and the
/// parser's path of an absolute URI, or nothing. The parser reports an
/// absent path as `/`, so the path component here is its normalized
/// form; the text-preserving split below recovers the configured
/// spelling. The result depends on the text alone.
pub uninterp spec fn uri_parts_of(s: Seq<char>) -> Option<(Seq<char>, Seq<char>, Seq<char>)>;

/// Relies on `hyper::Uri` (the `http` crate's URI parser): parsing an
/// absolute URI and reading its scheme, authority and path accessors.
/// Relative and malformed URIs yield nothing.
#[verifier::external_body]
fn parse_uri_raw(s: &str) -> (r: Option<UriParts>)
    ensures
        match r {
            Some(p) => uri_parts_of(s@) == Some((p.scheme@, p.authority@, p.path@)),
            None => uri_parts_of(s@) is None,
        },
{
    let uri: hyper::Uri = match s.parse() {
        Ok(u) => u,
        Err(_) => return None,
    };
    let scheme = uri.scheme_str()?.to_string();
    let authority = uri.authority()?.as_str().to_string();
    let path = uri.path().to_string();
    Some(UriParts { scheme, authority, path })
}

/// The configured path of an upstream URI: the text after
/// `scheme://authority`, cut before any query. A URI written without
/// a path keeps an empty path, so its trailing-slash spelling is
/// preserved exactly as configured. When the text is not in the
/// parser's canonical spelling of scheme and authority, the parser's
/// normalized path stands.
pub open spec fn text_path_of(
    s: Seq<char>,
    scheme: Seq<char>,
    authority: Seq<char>,
    norm_path: Seq<char>,
) -> Seq<char> {
    let prefix = scheme + "://"@ + authority;
    if prefix.len() <= s.len() && s.take(prefix.len() as int) == prefix {
        let rest = s.skip(prefix.len() as int);
        let q = find_char(rest, '?');
        if q == -1 {
            rest
        } else {
            rest.take(q)
        }
    } else {
        norm_path
    }
}

/// What parsing an upstream URI text yields: the parser's scheme and
/// authority, and the text-preserving path split.
pub open spec fn spec_uri_parts(s: Seq<char>) -> Option<(Seq<char>, Seq<char>, Seq<char>)> {
    match uri_parts_of(s) {
        Some(p) => Some((p.0, p.1, text_path_of(s, p.0, p.1, p.2))),
        None => None,
    }
}

/// Parse an upstream URI into its parts, keeping the configured path
/// text.
pub fn parse_uri(s: &str) -> (r: Option<UriParts>)
    ensures
        match r {
            Some(p) => spec_uri_parts(s@) == Some((p.scheme@, p.authority@, p.path@)),
            None => spec_uri_parts(s@) is None,
        },
{
    let raw = match parse_uri_raw(s) {
        Some(raw) => raw,
        None => {
            return None;
        },
    };
    let mut prefix = String::new();
    prefix.append(raw.scheme.as_str());
    prefix.append("://");
    prefix.append(raw.authority.as_str());
    proof {
        assert(prefix@ =~= raw.scheme@ + "://"@ + raw.authority@);
    }
    let plen = prefix.unicode_len();
    let n = s.unicode_len();
    let path: String = if plen <= n && crate::continent::str_eq_exec(
        s.substring_char(0, plen),
        prefix.as_str(),
    ) {
        let rest = s.substring_char(plen, n);
        proof {
            assert(rest@ =~= s@.skip(plen as int));
        }
        match find_char_exec(rest, '?') {
            Some(q) => rest.substring_char(0, q).to_owned(),
            None => rest.to_owned(),
        }
    } else {
        raw.path
    };
    Some(UriParts { scheme: raw.scheme, authority: raw.authority, path })
}

/// The redirect target: the upstream's scheme and authority, and the
/// upstream path with the request's path-and-query appended verbatim.
pub open spec fn compose_uri_spec(
    scheme: Seq<char>,
    authority: Seq<char>,
    base_path: Seq<char>,
    request_path: Seq<char>,
) -> Seq<char> {
    scheme + "://"@ + authority + base_path + request_path
}

/// Compose the redirect target URI.
pub fn compose_uri(base: &UriParts, path: &str) -> (r: String)
    ensures
        r@ == compose_uri_spec(base.scheme@, base.authority@, base.path@, path@),
{
    let mut out = String::new();
    out.append(base.scheme.as_str());
    out.append("://");
    out.append(base.authority.as_str());
    out.append(base.path.as_str());
    out.append(path);
    proof {
        assert(out@ =~= compose_uri_spec(base.scheme@, base.authority@, base.path@, path@));
    }
    out
}

} // verus!
