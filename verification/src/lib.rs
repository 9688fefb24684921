//! Rewrites recognized hosts in whitespace-delimited text to privacy-friendly
//! alternative front-ends, driven by an ordered table of old/new host pairs.

pub mod json;
pub mod text;
pub mod types;

use vstd::prelude::*;

use crate::text::{join_spaces, split_tokens, join_with_spaces, tokens_of};
use crate::types::config::{table_match, lemma_table_match_first, lemma_table_match_none, Config};
use crate::types::domain::{entry_match, spec_normalize, Domain, DomainView};
use crate::types::urls::{set_url_host, url_parse, url_with_host};

verus! {

/// What the rewrite makes of one token: where some entry matches it (first
/// entry wins, old hosts only), the matched URL re-serialized with the
/// entry's new host; otherwise the token itself. A token whose host
/// replacement fails is also passed through unchanged.
pub open spec fn rewrite_token(ds: Seq<DomainView>, t: Seq<char>) -> Seq<char> {
    match table_match(ds, t, true) {
        Some((i, p)) => match url_with_host(p.text, ds[i].new.host) {
            Some(u) => u,
            None => t,
        },
        None => t,
    }
}

/// What the rewrite makes of a whole text: the empty text stays empty; any
/// other text is split into tokens, each token rewritten, and the results
/// joined with single spaces.
pub open spec fn rewrite_text(ds: Seq<DomainView>, text: Seq<char>) -> Seq<char> {
    if text.len() == 0 {
        text
    } else {
        join_spaces(tokens_of(text).map_values(|t: Seq<char>| rewrite_token(ds, t)))
    }
}

/// Rewrite one token against the table, first matching entry first.
fn rewrite_one(config: &Config, word: &str) -> (r: String)
    ensures
        r@ == rewrite_token(config@.domains, word@),
{
    let ghost ds = config@.domains;
    let mut i: usize = 0;
    while i < config.domains.len()
        invariant
            ds == config@.domains,
            i <= config.domains.len(),
            forall|j: int| 0 <= j < i ==> entry_match(#[trigger] ds[j], word@, true) is None,
        decreases config.domains.len() - i,
    {
        match config.domains[i].contain(word, true) {
            Some(p) => {
                proof {
                    lemma_table_match_first(ds, word@, true, i as int, p@);
                }
                match set_url_host(p.text.as_str(), config.domains[i].new.host.as_str()) {
                    Some(u) => {
                        return u;
                    },
                    None => {
                        return word.to_owned();
                    },
                }
            },
            None => {},
        }
        i = i + 1;
    }
    proof {
        lemma_table_match_none(ds, word@, true);
    }
    word.to_owned()
}

/// Rewrite every whitespace-delimited token of `text` whose host matches an
/// entry's old host to carry that entry's new host instead, and join the
/// tokens back with single spaces. The empty text is returned unchanged.
pub fn parse_string(config: &Config, text: String) -> (r: String)
    ensures
        r@ == rewrite_text(config@.domains, text@),
{
    if text.as_str().is_empty() {
        return text;
    }
    let ghost ds = config@.domains;
    let tokens = split_tokens(text.as_str());
    let mut out: Vec<String> = Vec::new();
    let mut i: usize = 0;
    while i < tokens.len()
        invariant
            ds == config@.domains,
            i <= tokens.len(),
            out.deep_view().len() == i,
            forall|j: int|
                0 <= j < i ==> out.deep_view()[j] == rewrite_token(
                    ds,
                    #[trigger] tokens.deep_view()[j],
                ),
        decreases tokens.len() - i,
    {
        out.push(rewrite_one(config, tokens[i].as_str()));
        i = i + 1;
    }
    proof {
        assert(out.deep_view() =~= tokens.deep_view().map_values(
            |t: Seq<char>| rewrite_token(ds, t),
        ));
    }
    join_with_spaces(&out)
}

/// The entries matched by the tokens `ts`, one per matching token, in token
/// order (old hosts only).
pub open spec fn extract_from_tokens(ds: Seq<DomainView>, ts: Seq<Seq<char>>) -> Seq<DomainView>
    decreases ts.len(),
{
    if ts.len() == 0 {
        Seq::empty()
    } else {
        let rest = extract_from_tokens(ds, ts.drop_last());
        match table_match(ds, ts.last(), true) {
            Some((i, p)) => rest.push(ds[i]),
            None => rest,
        }
    }
}

/// The entries whose old host is matched by some token of `text`, in token
/// order, duplicates included.
pub open spec fn spec_extract(ds: Seq<DomainView>, text: Seq<char>) -> Seq<DomainView> {
    extract_from_tokens(ds, tokens_of(text))
}

/// Return, in token order, the table entries whose old host some token of
/// `text` matches; a token matching nothing contributes nothing.
pub fn extract_old_domains<'a>(config: &'a Config, text: String) -> (r: Vec<&'a Domain>)
    ensures
        r.deep_view() == spec_extract(config@.domains, text@),
{
    let ghost ds = config@.domains;
    let tokens = split_tokens(text.as_str());
    let mut out: Vec<&Domain> = Vec::new();
    proof {
        assert(out.deep_view() =~= Seq::<DomainView>::empty());
        assert(tokens.deep_view().take(0) =~= Seq::<Seq<char>>::empty());
    }
    let mut i: usize = 0;
    while i < tokens.len()
        invariant
            ds == config@.domains,
            i <= tokens.len(),
            out.deep_view() == extract_from_tokens(ds, tokens.deep_view().take(i as int)),
        decreases tokens.len() - i,
    {
        proof {
            assert(tokens.deep_view().take(i as int + 1).drop_last() =~= tokens.deep_view().take(
                i as int,
            ));
            assert(tokens.deep_view().take(i as int + 1).last() == tokens.deep_view()[i as int]);
        }
        match config.contain(tokens[i].as_str(), true) {
            Some(d) => {
                let ghost prev = out.deep_view();
                out.push(d);
                proof {
                    let (k, p) = table_match(ds, tokens.deep_view()[i as int], true)->Some_0;
                    assert(out.deep_view() =~= prev.push(ds[k]));
                }
            },
            None => {},
        }
        i = i + 1;
    }
    proof {
        assert(tokens.deep_view().take(tokens.deep_view().len() as int) =~= tokens.deep_view());
    }
    out
}

/// Rewriting the empty text returns the empty text.
pub proof fn lemma_rewrite_empty(ds: Seq<DomainView>)
    ensures
        rewrite_text(ds, Seq::<char>::empty()) == Seq::<char>::empty(),
{
}

/// A token with no recognizable host: it fails URL parsing even after scheme
/// normalization, or parses to a URL without a host.
pub open spec fn token_hostless(t: Seq<char>) -> bool {
    match url_parse(spec_normalize(t)) {
        Some(p) => p.host is None,
        None => true,
    }
}

/// Rewriting text none of whose tokens has a recognizable host returns the
/// text unchanged, except that its whitespace is normalized to single spaces.
pub proof fn lemma_rewrite_hostless(ds: Seq<DomainView>, text: Seq<char>)
    requires
        forall|k: int|
            0 <= k < tokens_of(text).len() ==> token_hostless(#[trigger] tokens_of(text)[k]),
    ensures
        rewrite_text(ds, text) == if text.len() == 0 {
            text
        } else {
            join_spaces(tokens_of(text))
        },
{
    if text.len() > 0 {
        assert forall|k: int| 0 <= k < tokens_of(text).len() implies rewrite_token(
            ds,
            #[trigger] tokens_of(text)[k],
        ) == tokens_of(text)[k] by {
            let t = tokens_of(text)[k];
            assert(forall|j: int| 0 <= j < ds.len() ==> entry_match(#[trigger] ds[j], t, true) is None);
            lemma_table_match_none(ds, t, true);
        }
        assert(tokens_of(text).map_values(|t: Seq<char>| rewrite_token(ds, t)) =~= tokens_of(
            text,
        ));
    }
}

/// Whether a token's host — if the token parses to a URL with one — differs
/// from every old host of the table. True of unknown hosts, and of text
/// already rewritten to the table's new hosts.
pub open spec fn token_matches_no_old_host(ds: Seq<DomainView>, t: Seq<char>) -> bool {
    match url_parse(spec_normalize(t)) {
        Some(p) => match p.host {
            Some(h) => forall|i: int| 0 <= i < ds.len() ==> h != (#[trigger] ds[i]).old.host,
            None => true,
        },
        None => true,
    }
}

/// The rewrite matches old hosts only, so text whose tokens carry no old
/// host — in particular text that already uses only the table's new hosts —
/// is left unchanged, provided its whitespace is already single spaces.
pub proof fn lemma_rewrite_fixed_point(ds: Seq<DomainView>, text: Seq<char>)
    requires
        text == join_spaces(tokens_of(text)),
        forall|k: int|
            0 <= k < tokens_of(text).len() ==> token_matches_no_old_host(
                ds,
                #[trigger] tokens_of(text)[k],
            ),
    ensures
        rewrite_text(ds, text) == text,
{
    if text.len() > 0 {
        assert forall|k: int| 0 <= k < tokens_of(text).len() implies rewrite_token(
            ds,
            #[trigger] tokens_of(text)[k],
        ) == tokens_of(text)[k] by {
            let t = tokens_of(text)[k];
            assert(forall|j: int| 0 <= j < ds.len() ==> entry_match(#[trigger] ds[j], t, true) is None);
            lemma_table_match_none(ds, t, true);
        }
        assert(tokens_of(text).map_values(|t: Seq<char>| rewrite_token(ds, t)) =~= tokens_of(
            text,
        ));
    }
}

} // verus!
