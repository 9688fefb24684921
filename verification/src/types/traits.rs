//! Serialization of entries and tables to and from their JSON shape.

use vstd::prelude::*;

use crate::json::{
    domain_json, emit_entry, entries_json, key_domains, lemma_parse_entry_text_round_trip,
    lemma_parse_table_round_trip, pairs_of, parse_entry_text, parse_table, push_char,
    skip_ws_exec, table_json, take_entry, take_table,
};
use crate::types::config::{config_wf, Config, ConfigView};
use crate::types::domain::{domain_wf, Domain, DomainView};
use crate::types::errors::DomainChangerError;
use crate::types::urls::{good_url, rec_of, url_parse, UrlParts, UrlRecView};

verus! {

/// Why deserialization failed: the text was not of the expected JSON shape,
/// or a URL string inside it was not a valid domain.
#[derive(Debug)]
pub enum JsonError {
    /// The text does not have the expected JSON structure.
    Syntax,
    /// The structure was right, but one URL string was rejected.
    Invalid(DomainChangerError),
}

/// What a mapping entry's JSON deserializes to, if anything: the structure
/// must parse, and both URL strings must be absolute URLs with non-empty
/// hosts.
pub open spec fn spec_domain_of_json(s: Seq<char>) -> Option<DomainView> {
    match parse_entry_text(s) {
        Some((o, n)) => if good_url(o) && good_url(n) {
            Some(DomainView { old: rec_of(o), new: rec_of(n) })
        } else {
            None
        },
        None => None,
    }
}

/// The entry views of a list of raw URL-text pairs.
pub open spec fn views_of_pairs(ps: Seq<(Seq<char>, Seq<char>)>) -> Seq<DomainView> {
    Seq::new(ps.len(), |k: int| DomainView { old: rec_of(ps[k].0), new: rec_of(ps[k].1) })
}

/// Every pair holds two absolute URLs with non-empty hosts.
pub open spec fn all_pairs_good(ps: Seq<(Seq<char>, Seq<char>)>) -> bool {
    forall|k: int| 0 <= k < ps.len() ==> good_url((#[trigger] ps[k]).0) && good_url(ps[k].1)
}

/// What a mapping table's JSON deserializes to, if anything.
pub open spec fn spec_config_of_json(s: Seq<char>) -> Option<ConfigView> {
    match parse_table(s) {
        Some(ps) => if all_pairs_good(ps) {
            Some(ConfigView { domains: views_of_pairs(ps) })
        } else {
            None
        },
        None => None,
    }
}

/// Serialization to and from the JSON shape of this library: an entry is an
/// object with the two string fields `old` and `new`, a table an object with
/// the one field `domains`.
pub trait ToFromJson: Sized + View {
    /// The canonical JSON text of this value.
    spec fn spec_json(&self) -> Seq<char>;

    /// Whether a text has the expected JSON structure, before URL validation.
    spec fn spec_json_structure(s: Seq<char>) -> bool;

    /// What a JSON text deserializes to, if anything.
    spec fn spec_of_json(s: Seq<char>) -> Option<Self::V>;

    /// Serialize to the canonical JSON text.
    fn to_json(&self) -> (r: String)
        ensures
            r@ == self.spec_json(),
    ;

    /// Deserialize from JSON, validating every URL string.
    fn from_json(s: &str) -> (r: Result<Self, JsonError>)
        ensures
            r is Ok <==> Self::spec_of_json(s@) is Some,
            match r {
                Ok(v) => Self::spec_of_json(s@) == Some(v@),
                Err(JsonError::Syntax) => !Self::spec_json_structure(s@),
                Err(JsonError::Invalid(_)) => Self::spec_json_structure(s@)
                    && Self::spec_of_json(s@) is None,
            },
    ;
}

impl ToFromJson for Domain {
    open spec fn spec_json(&self) -> Seq<char> {
        domain_json(self@)
    }

    open spec fn spec_json_structure(s: Seq<char>) -> bool {
        parse_entry_text(s) is Some
    }

    open spec fn spec_of_json(s: Seq<char>) -> Option<DomainView> {
        spec_domain_of_json(s)
    }

    fn to_json(&self) -> (r: String) {
        let mut out = String::new();
        emit_entry(&mut out, self.old.text.as_str(), self.new.text.as_str());
        proof {
            assert(out@ =~= domain_json(self@));
        }
        out
    }

    fn from_json(s: &str) -> (r: Result<Self, JsonError>) {
        match take_entry(s, 0) {
            Some((pair, j)) => {
                let e = skip_ws_exec(s, j);
                if e == s.unicode_len() {
                    match Domain::try_from(pair.0.as_str(), pair.1.as_str()) {
                        Ok(d) => Ok(d),
                        Err(err) => Err(JsonError::Invalid(err)),
                    }
                } else {
                    Err(JsonError::Syntax)
                }
            },
            None => Err(JsonError::Syntax),
        }
    }
}

impl ToFromJson for Config {
    open spec fn spec_json(&self) -> Seq<char> {
        table_json(self@.domains)
    }

    open spec fn spec_json_structure(s: Seq<char>) -> bool {
        parse_table(s) is Some
    }

    open spec fn spec_of_json(s: Seq<char>) -> Option<ConfigView> {
        spec_config_of_json(s)
    }

    fn to_json(&self) -> (r: String) {
        let ghost ds = self@.domains;
        let mut out = String::new();
        proof {
            reveal_strlit("{\"domains\":[");
            reveal_strlit("]}");
            assert(("{\"domains\":[")@ =~= seq!['{'] + key_domains() + seq![':'] + seq!['[']);
            assert(("]}")@ =~= seq![']'] + seq!['}']);
        }
        out.append("{\"domains\":[");
        let ghost head = out@;
        let mut i: usize = 0;
        proof {
            assert(entries_json(ds.take(0)) =~= Seq::<char>::empty());
            assert(out@ =~= head + entries_json(ds.take(0)));
        }
        while i < self.domains.len()
            invariant
                ds == self@.domains,
                self.domains.deep_view() == ds,
                i <= self.domains.len(),
                out@ == head + entries_json(ds.take(i as int)),
            decreases self.domains.len() - i,
        {
            proof {
                assert(ds.take(i as int + 1).drop_last() =~= ds.take(i as int));
                assert(ds.take(i as int + 1).last() == ds[i as int]);
            }
            if i != 0 {
                push_char(&mut out, ',');
            }
            emit_entry(
                &mut out,
                self.domains[i].old.text.as_str(),
                self.domains[i].new.text.as_str(),
            );
            proof {
                assert(out@ =~= head + entries_json(ds.take(i as int + 1)));
            }
            i = i + 1;
        }
        proof {
            assert(ds.take(ds.len() as int) =~= ds);
        }
        out.append("]}");
        proof {
            assert(out@ =~= table_json(ds));
        }
        out
    }

    fn from_json(s: &str) -> (r: Result<Self, JsonError>) {
        match take_table(s) {
            Some(pairs) => {
                let ghost ps = pairs.deep_view();
                let mut domains: Vec<Domain> = Vec::new();
                let mut i: usize = 0;
                proof {
                    assert(domains.deep_view() =~= Seq::<DomainView>::empty());
                }
                while i < pairs.len()
                    invariant
                        parse_table(s@) == Some(ps),
                        ps == pairs.deep_view(),
                        i <= pairs.len(),
                        forall|k: int|
                            0 <= k < i ==> good_url((#[trigger] ps[k]).0) && good_url(ps[k].1),
                        domains.deep_view().len() == i,
                        forall|k: int|
                            0 <= k < i ==> #[trigger] domains.deep_view()[k] == (DomainView {
                                old: rec_of(ps[k].0),
                                new: rec_of(ps[k].1),
                            }),
                    decreases pairs.len() - i,
                {
                    match Domain::try_from(pairs[i].0.as_str(), pairs[i].1.as_str()) {
                        Ok(d) => {
                            let ghost prev = domains.deep_view();
                            domains.push(d);
                            proof {
                                assert(domains.deep_view() =~= prev.push(d@));
                                assert(d@.old == rec_of(ps[i as int].0));
                                assert(d@.new == rec_of(ps[i as int].1));
                                assert(d@ == (DomainView {
                                    old: rec_of(ps[i as int].0),
                                    new: rec_of(ps[i as int].1),
                                }));
                            }
                        },
                        Err(err) => {
                            proof {
                                assert(!(good_url(ps[i as int].0) && good_url(ps[i as int].1)));
                            }
                            return Err(JsonError::Invalid(err));
                        },
                    }
                    i = i + 1;
                }
                let c = Config { domains };
                proof {
                    assert(c@.domains =~= views_of_pairs(ps));
                    assert(c@ == ConfigView { domains: views_of_pairs(ps) });
                }
                Ok(c)
            },
            None => Err(JsonError::Syntax),
        }
    }
}

/// Serializing a well-formed entry and deserializing the result yields the
/// entry back: the JSON round trip is lossless.
pub proof fn lemma_domain_json_round_trip(d: DomainView)
    requires
        domain_wf(d),
    ensures
        spec_domain_of_json(domain_json(d)) == Some(d),
{
    lemma_parse_entry_text_round_trip(d);
    assert(url_parse(d.old.text) == Some(UrlParts { text: d.old.text, host: Some(d.old.host) }));
    assert(url_parse(d.new.text) == Some(UrlParts { text: d.new.text, host: Some(d.new.host) }));
    assert(rec_of(d.old.text) == UrlRecView { text: d.old.text, host: d.old.host });
    assert(rec_of(d.new.text) == UrlRecView { text: d.new.text, host: d.new.host });
}

/// Serializing a well-formed table and deserializing the result yields the
/// table back: the JSON round trip is lossless.
pub proof fn lemma_config_json_round_trip(c: ConfigView)
    requires
        config_wf(c),
    ensures
        spec_config_of_json(table_json(c.domains)) == Some(c),
{
    lemma_parse_table_round_trip(c.domains);
    let ps = pairs_of(c.domains);
    assert forall|k: int| 0 <= k < ps.len() implies good_url((#[trigger] ps[k]).0) && good_url(
        ps[k].1,
    ) by {
        assert(domain_wf(c.domains[k]));
    }
    assert forall|k: int| 0 <= k < ps.len() implies views_of_pairs(ps)[k] == c.domains[k] by {
        assert(domain_wf(c.domains[k]));
        assert(rec_of(c.domains[k].old.text) == c.domains[k].old);
        assert(rec_of(c.domains[k].new.text) == c.domains[k].new);
    }
    assert(views_of_pairs(ps) =~= c.domains);
}

} // verus!
