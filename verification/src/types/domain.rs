//! A mapping entry: one `old` host to be rewritten to one `new` host.

use vstd::prelude::*;

use crate::types::errors::{DomainChangerError, DomainChangerResult};
use crate::types::urls::{
    good_url, parse_url, rec_of, rec_wf, url_parse, ParsedUrl, UrlParts, UrlRecView, UrlRecord,
};

verus! {

/// One rewrite rule: a token whose host equals `old`'s host is rewritten to
/// carry `new`'s host instead.
#[derive(Debug, Clone, PartialEq, Eq)]
pub struct Domain {
    /// The URL whose host is to be replaced.
    pub old: UrlRecord,
    /// The URL whose host replaces it.
    pub new: UrlRecord,
}

pub ghost struct DomainView {
    pub old: UrlRecView,
    pub new: UrlRecView,
}

impl View for Domain {
    type V = DomainView;

    open spec fn view(&self) -> DomainView {
        DomainView { old: self.old@, new: self.new@ }
    }
}

/// Both sides of the entry are canonical URLs with non-empty hosts.
pub open spec fn domain_wf(d: DomainView) -> bool {
    rec_wf(d.old) && rec_wf(d.new)
}

/// Whether a token already carries an explicit `http://` or `https://` scheme.
pub open spec fn spec_has_scheme(t: Seq<char>) -> bool {
    t.len() >= 7 && t[0] == 'h' && t[1] == 't' && t[2] == 't' && t[3] == 'p' && ((t[4] == ':'
        && t[5] == '/' && t[6] == '/') || (t.len() >= 8 && t[4] == 's' && t[5] == ':' && t[6] == '/'
        && t[7] == '/'))
}

/// The scheme prefixed onto bare tokens before URL parsing.
pub open spec fn https_prefix() -> Seq<char> {
    seq!['h', 't', 't', 'p', 's', ':', '/', '/']
}

/// A token as handed to the URL parser: unchanged if it already has a scheme,
/// otherwise with `https://` prepended.
pub open spec fn spec_normalize(t: Seq<char>) -> Seq<char> {
    if spec_has_scheme(t) {
        t
    } else {
        https_prefix() + t
    }
}

/// What an entry makes of one token: the parsed (normalized) token where its
/// host equals the entry's old host — or, unless `just_old`, its new host —
/// and nothing otherwise.
pub open spec fn entry_match(d: DomainView, t: Seq<char>, just_old: bool) -> Option<UrlParts> {
    match url_parse(spec_normalize(t)) {
        Some(p) => match p.host {
            Some(h) => if h == d.old.host || (!just_old && h == d.new.host) {
                Some(p)
            } else {
                None
            },
            None => None,
        },
        None => None,
    }
}

/// Whether `t` starts with `http://` or `https://`.
fn has_scheme(t: &str) -> (r: bool)
    ensures
        r == spec_has_scheme(t@),
{
    let n = t.unicode_len();
    if n < 7 {
        return false;
    }
    if !(t.get_char(0) == 'h' && t.get_char(1) == 't' && t.get_char(2) == 't' && t.get_char(3)
        == 'p') {
        return false;
    }
    if t.get_char(4) == ':' && t.get_char(5) == '/' && t.get_char(6) == '/' {
        return true;
    }
    n >= 8 && t.get_char(4) == 's' && t.get_char(5) == ':' && t.get_char(6) == '/' && t.get_char(7)
        == '/'
}

/// Prefix `https://` onto tokens that carry no scheme of their own.
pub(crate) fn normalize_token(t: &str) -> (r: String)
    ensures
        r@ == spec_normalize(t@),
{
    if has_scheme(t) {
        t.to_owned()
    } else {
        let mut s: String = ("https://").to_owned();
        proof {
            reveal_strlit("https://");
            assert(s@ =~= https_prefix());
        }
        s.append(t);
        s
    }
}

impl Domain {
    /// Pair an already-validated old record with a new one.
    pub fn new(old: UrlRecord, new: UrlRecord) -> (r: Self)
        ensures
            r.old == old,
            r.new == new,
    {
        Domain { old, new }
    }

    /// Build an entry from two URL strings. Fails as `InvalidOldDomain` where
    /// the first is not an absolute URL with a non-empty host, and as
    /// `InvalidNewDomain` where the first is fine but the second is not.
    pub fn try_from(old: &str, new: &str) -> (r: DomainChangerResult<Domain>)
        ensures
            r is Ok <==> good_url(old@) && good_url(new@),
            match r {
                Ok(d) => {
                    &&& d@.old == rec_of(old@)
                    &&& d@.new == rec_of(new@)
                    &&& domain_wf(d@)
                },
                Err(e) => match e {
                    DomainChangerError::InvalidOldDomain(m) => !good_url(old@) && m@
                        == invalid_domain_msg(old@, true),
                    DomainChangerError::InvalidNewDomain(m) => good_url(old@) && !good_url(new@)
                        && m@ == invalid_domain_msg(new@, false),
                },
            },
    {
        let old_rec = match UrlRecord::parse(old) {
            Some(rec) => rec,
            None => {
                return Err(DomainChangerError::InvalidOldDomain(make_invalid_msg(old, true)));
            },
        };
        let new_rec = match UrlRecord::parse(new) {
            Some(rec) => rec,
            None => {
                return Err(DomainChangerError::InvalidNewDomain(make_invalid_msg(new, false)));
            },
        };
        Ok(Domain { old: old_rec, new: new_rec })
    }

    /// The parsed (normalized) token, where the token's host equals this
    /// entry's old host — or, unless `just_old`, its new host.
    pub fn contain(&self, word: &str, just_old: bool) -> (r: Option<ParsedUrl>)
        ensures
            match (r, entry_match(self@, word@, just_old)) {
                (Some(p), Some(q)) => p@ == q,
                (None, None) => true,
                _ => false,
            },
    {
        let normalized = normalize_token(word);
        match parse_url(normalized.as_str()) {
            Some(p) => {
                let matched = match &p.host {
                    Some(h) => *h == self.old.host || (!just_old && *h == self.new.host),
                    None => false,
                };
                if matched {
                    Some(p)
                } else {
                    None
                }
            },
            None => None,
        }
    }
}

/// The message carried by a construction error: the offending input, quoted,
/// then which side was invalid.
pub open spec fn invalid_domain_msg(s: Seq<char>, old_side: bool) -> Seq<char> {
    if old_side {
        "'"@ + s + "', is invalid old domain"@
    } else {
        "'"@ + s + "', is invalid new domain"@
    }
}

fn make_invalid_msg(s: &str, old_side: bool) -> (r: String)
    ensures
        r@ == invalid_domain_msg(s@, old_side),
{
    let mut m: String = ("'").to_owned();
    m.append(s);
    if old_side {
        m.append("', is invalid old domain");
    } else {
        m.append("', is invalid new domain");
    }
    m
}

} // verus!
