//! Plain-value model of parsed URLs, and the trusted boundary to the `url` crate.
//!
//! The rewriting logic only ever reads two things from a parsed URL: its
//! canonical serialization and its host. Both are held here as plain strings;
//! what only the `url` crate can compute (parsing, host replacement) sits
//! behind the two trusted wrappers at the bottom of this file.

use vstd::prelude::*;

verus! {

/// The pieces of a parsed absolute URL that the logic reads: its canonical
/// serialization and its host, if it has one.
pub ghost struct UrlParts {
    pub text: Seq<char>,
    pub host: Option<Seq<char>>,
}

/// What `url::Url::parse` makes of a string: `None` where parsing fails,
/// otherwise the canonical serialization and the host of the parsed URL.
pub uninterp spec fn url_parse(s: Seq<char>) -> Option<UrlParts>;

/// Outcome of parsing `text` as a URL, replacing its host by `host`, and
/// serializing the result again; `None` where parsing or replacement fails.
pub uninterp spec fn url_with_host(text: Seq<char>, host: Seq<char>) -> Option<Seq<char>>;

/// A parsed URL reduced to the plain values the logic needs.
pub struct ParsedUrl {
    /// The canonical serialization, as `url::Url::as_str` returns it.
    pub text: String,
    /// The host component, as `url::Url::host_str` returns it.
    pub host: Option<String>,
}

impl View for ParsedUrl {
    type V = UrlParts;

    open spec fn view(&self) -> UrlParts {
        UrlParts {
            text: self.text@,
            host: match self.host {
                Some(h) => Some(h@),
                None => None,
            },
        }
    }
}

/// A URL that is known to carry a host: one side of a mapping entry.
#[derive(Debug, Clone, PartialEq, Eq)]
pub struct UrlRecord {
    /// The canonical serialization of the URL.
    pub text: String,
    /// Its host component.
    pub host: String,
}

pub ghost struct UrlRecView {
    pub text: Seq<char>,
    pub host: Seq<char>,
}

impl View for UrlRecord {
    type V = UrlRecView;

    open spec fn view(&self) -> UrlRecView {
        UrlRecView { text: self.text@, host: self.host@ }
    }
}

/// A record is well formed when its text really is the canonical serialization
/// of a URL whose host is the record's (non-empty) host.
pub open spec fn rec_wf(r: UrlRecView) -> bool {
    &&& r.host.len() > 0
    &&& url_parse(r.text) == Some(UrlParts { text: r.text, host: Some(r.host) })
}

/// Whether a string parses as an absolute URL with a non-empty host.
pub open spec fn good_url(s: Seq<char>) -> bool {
    match url_parse(s) {
        Some(p) => match p.host {
            Some(h) => h.len() > 0,
            None => false,
        },
        None => false,
    }
}

/// The record a good URL string parses to (meaningful only under `good_url`).
pub open spec fn rec_of(s: Seq<char>) -> UrlRecView {
    match url_parse(s) {
        Some(p) => match p.host {
            Some(h) => UrlRecView { text: p.text, host: h },
            None => UrlRecView { text: p.text, host: Seq::empty() },
        },
        None => UrlRecView { text: Seq::empty(), host: Seq::empty() },
    }
}

impl UrlRecord {
    /// Parse a string as an absolute URL and keep it only if it has a
    /// non-empty host, the invariant every mapping entry side must satisfy.
    pub fn parse(s: &str) -> (r: Option<UrlRecord>)
        ensures
            match r {
                Some(rec) => good_url(s@) && rec@ == rec_of(s@) && rec_wf(rec@),
                None => !good_url(s@),
            },
    {
        match parse_url(s) {
            Some(p) => match p.host {
                Some(h) => {
                    if h.as_str().unicode_len() > 0 {
                        Some(UrlRecord { text: p.text, host: h })
                    } else {
                        None
                    }
                },
                None => None,
            },
            None => None,
        }
    }
}

/// Relies on `url::Url::parse`, reading the result through `Url::as_str` and
/// `Url::host_str`: the outcome is a function of `s` alone, and parsing the
/// canonical serialization again succeeds and yields the same serialization
/// and host (the `url` crate asserts this of itself in `Url::check_invariants`).
#[verifier::external_body]
pub(crate) fn parse_url(s: &str) -> (r: Option<ParsedUrl>)
    ensures
        match (r, url_parse(s@)) {
            (Some(p), Some(q)) => p@ == q && url_parse(q.text) == Some(q),
            (None, None) => true,
            _ => false,
        },
{
    match url::Url::parse(s) {
        Ok(u) => Some(ParsedUrl {
            text: u.as_str().to_string(),
            host: u.host_str().map(|h| h.to_string()),
        }),
        Err(_) => None,
    }
}

/// Relies on `url::Url::parse`, `Url::set_host` and `Url::as_str`: replacing
/// the host of a URL and serializing again is a function of the two strings
/// alone, and fails only where parsing or `set_host` fails.
#[verifier::external_body]
pub(crate) fn set_url_host(text: &str, host: &str) -> (r: Option<String>)
    ensures
        match (r, url_with_host(text@, host@)) {
            (Some(u), Some(v)) => u@ == v,
            (None, None) => true,
            _ => false,
        },
{
    match url::Url::parse(text) {
        Ok(mut u) => match u.set_host(Some(host)) {
            Ok(()) => Some(u.as_str().to_string()),
            Err(_) => None,
        },
        Err(_) => None,
    }
}

} // verus!
