//! The mapping table: an ordered list of entries, scanned first-match-first.

use vstd::prelude::*;

use crate::types::domain::{domain_wf, entry_match, Domain, DomainView};
use crate::types::urls::{good_url, rec_of, UrlParts};

verus! {

/// An ordered collection of mapping entries; on lookup the first entry that
/// matches a token wins.
#[derive(Debug, Clone, PartialEq, Eq)]
pub struct Config {
    pub domains: Vec<Domain>,
}

pub ghost struct ConfigView {
    pub domains: Seq<DomainView>,
}

impl DeepView for Domain {
    type V = DomainView;

    open spec fn deep_view(&self) -> DomainView {
        self.view()
    }
}

impl View for Config {
    type V = ConfigView;

    open spec fn view(&self) -> ConfigView {
        ConfigView { domains: self.domains.deep_view() }
    }
}

/// Every entry of the table is well formed.
pub open spec fn config_wf(c: ConfigView) -> bool {
    forall|i: int| 0 <= i < c.domains.len() ==> domain_wf(#[trigger] c.domains[i])
}

/// The first entry of `ds` that matches `t`, with its index and the parsed
/// token, scanning in order.
pub open spec fn table_match(ds: Seq<DomainView>, t: Seq<char>, just_old: bool) -> Option<
    (int, UrlParts),
>
    decreases ds.len(),
{
    if ds.len() == 0 {
        None
    } else {
        match entry_match(ds[0], t, just_old) {
            Some(p) => Some((0, p)),
            None => match table_match(ds.drop_first(), t, just_old) {
                Some((i, p)) => Some((i + 1, p)),
                None => None,
            },
        }
    }
}

/// Where no entry matches a token, the ordered scan finds nothing.
pub proof fn lemma_table_match_none(ds: Seq<DomainView>, t: Seq<char>, just_old: bool)
    requires
        forall|i: int| 0 <= i < ds.len() ==> entry_match(#[trigger] ds[i], t, just_old) is None,
    ensures
        table_match(ds, t, just_old) is None,
    decreases ds.len(),
{
    if ds.len() > 0 {
        assert(entry_match(ds[0], t, just_old) is None);
        assert forall|i: int| 0 <= i < ds.drop_first().len() implies entry_match(
            #[trigger] ds.drop_first()[i],
            t,
            just_old,
        ) is None by {
            assert(ds.drop_first()[i] == ds[i + 1]);
        }
        lemma_table_match_none(ds.drop_first(), t, just_old);
    }
}

/// Where entry `i` matches a token and no earlier entry does, the ordered
/// scan finds exactly entry `i`.
pub proof fn lemma_table_match_first(
    ds: Seq<DomainView>,
    t: Seq<char>,
    just_old: bool,
    i: int,
    p: UrlParts,
)
    requires
        0 <= i < ds.len(),
        entry_match(ds[i], t, just_old) == Some(p),
        forall|j: int| 0 <= j < i ==> entry_match(#[trigger] ds[j], t, just_old) is None,
    ensures
        table_match(ds, t, just_old) == Some((i, p)),
    decreases i,
{
    if i == 0 {
    } else {
        assert(entry_match(ds[0], t, just_old) is None);
        assert(ds.drop_first()[i - 1] == ds[i]);
        assert forall|j: int| 0 <= j < i - 1 implies entry_match(
            #[trigger] ds.drop_first()[j],
            t,
            just_old,
        ) is None by {
            assert(ds.drop_first()[j] == ds[j + 1]);
        }
        lemma_table_match_first(ds.drop_first(), t, just_old, i - 1, p);
    }
}

impl Config {
    /// Wrap an entry list as a table.
    pub fn new(domains: Vec<Domain>) -> (r: Self)
        ensures
            r.domains == domains,
    {
        Config { domains }
    }

    /// The old host of every entry, in table order.
    pub fn old_hosts(&self) -> (r: Vec<&str>)
        ensures
            r@.len() == self@.domains.len(),
            forall|i: int| 0 <= i < r@.len() ==> (#[trigger] r@[i])@ == self@.domains[i].old.host,
    {
        let mut r: Vec<&str> = Vec::new();
        let mut idx: usize = 0;
        while idx < self.domains.len()
            invariant
                idx <= self.domains.len(),
                r@.len() == idx,
                forall|i: int|
                    0 <= i < idx ==> (#[trigger] r@[i])@ == self.domains.deep_view()[i].old.host,
            decreases self.domains.len() - idx,
        {
            r.push(self.domains[idx].old.host.as_str());
            idx = idx + 1;
        }
        r
    }

    /// The new host of every entry, in table order.
    pub fn new_hosts(&self) -> (r: Vec<&str>)
        ensures
            r@.len() == self@.domains.len(),
            forall|i: int| 0 <= i < r@.len() ==> (#[trigger] r@[i])@ == self@.domains[i].new.host,
    {
        let mut r: Vec<&str> = Vec::new();
        let mut idx: usize = 0;
        while idx < self.domains.len()
            invariant
                idx <= self.domains.len(),
                r@.len() == idx,
                forall|i: int|
                    0 <= i < idx ==> (#[trigger] r@[i])@ == self.domains.deep_view()[i].new.host,
            decreases self.domains.len() - idx,
        {
            r.push(self.domains[idx].new.host.as_str());
            idx = idx + 1;
        }
        r
    }

    /// The first entry whose old host is exactly `old_host`, if any.
    pub fn get_by_old(&self, old_host: &str) -> (r: Option<&Domain>)
        ensures
            match r {
                Some(d) => exists|i: int|
                    0 <= i < self@.domains.len() && (#[trigger] self@.domains[i]).old.host
                        == old_host@ && d@ == self@.domains[i] && (forall|j: int|
                        0 <= j < i ==> (#[trigger] self@.domains[j]).old.host != old_host@),
                None => forall|i: int|
                    0 <= i < self@.domains.len() ==> (#[trigger] self@.domains[i]).old.host
                        != old_host@,
            },
    {
        let needle: String = old_host.to_owned();
        let mut idx: usize = 0;
        while idx < self.domains.len()
            invariant
                idx <= self.domains.len(),
                needle@ == old_host@,
                forall|j: int|
                    0 <= j < idx ==> (#[trigger] self.domains.deep_view()[j]).old.host
                        != old_host@,
            decreases self.domains.len() - idx,
        {
            if self.domains[idx].old.host == needle {
                proof {
                    let ghost w: int = idx as int;
                    assert(0 <= w < self@.domains.len() && self@.domains[w].old.host == old_host@
                        && (forall|j: int|
                        0 <= j < w ==> (#[trigger] self@.domains[j]).old.host != old_host@));
                }
                return Some(&self.domains[idx]);
            }
            idx = idx + 1;
        }
        None
    }

    /// The first entry that matches `word` (by old host — or, unless
    /// `just_old`, by new host), if any.
    pub fn contain(&self, word: &str, just_old: bool) -> (r: Option<&Domain>)
        ensures
            match (r, table_match(self@.domains, word@, just_old)) {
                (Some(d), Some((i, p))) => 0 <= i < self@.domains.len() && d@
                    == self@.domains[i],
                (None, None) => true,
                _ => false,
            },
    {
        let mut idx: usize = 0;
        while idx < self.domains.len()
            invariant
                idx <= self.domains.len(),
                forall|j: int|
                    0 <= j < idx ==> entry_match(
                        #[trigger] self.domains.deep_view()[j],
                        word@,
                        just_old,
                    ) is None,
            decreases self.domains.len() - idx,
        {
            if self.domains[idx].contain(word, just_old).is_some() {
                proof {
                    let p = entry_match(self.domains.deep_view()[idx as int], word@, just_old);
                    lemma_table_match_first(
                        self.domains.deep_view(),
                        word@,
                        just_old,
                        idx as int,
                        p->Some_0,
                    );
                }
                return Some(&self.domains[idx]);
            }
            idx = idx + 1;
        }
        proof {
            lemma_table_match_none(self.domains.deep_view(), word@, just_old);
        }
        None
    }
}

/// One step of building the default table: keep the pair if both sides parse
/// as URLs with non-empty hosts, drop it otherwise.
pub open spec fn table_step(t: Seq<DomainView>, o: Seq<char>, n: Seq<char>) -> Seq<DomainView> {
    if good_url(o) && good_url(n) {
        t.push(DomainView { old: rec_of(o), new: rec_of(n) })
    } else {
        t
    }
}

/// The built-in table: YouTube variants to a video front-end, Twitter
/// variants to a microblogging front-end, and Reddit to a Reddit front-end.
pub open spec fn spec_default_domains() -> Seq<DomainView> {
    let t = Seq::empty();
    let t = table_step(t, "https://youtube.com/"@, "https://piped.kavin.rocks/"@);
    let t = table_step(t, "https://www.youtube.com/"@, "https://piped.kavin.rocks/"@);
    let t = table_step(t, "https://youtu.be/"@, "https://piped.kavin.rocks/"@);
    let t = table_step(t, "https://t.co/"@, "https://nitter.net/"@);
    let t = table_step(t, "https://twitter.com/"@, "https://nitter.net/"@);
    table_step(t, "https://reddit.com/"@, "https://libredd.it/"@)
}

/// Append the entry built from `(o, n)` to the table, skipping pairs that do
/// not construct.
fn push_pair(domains: &mut Vec<Domain>, o: &str, n: &str)
    ensures
        final(domains).deep_view() == table_step(old(domains).deep_view(), o@, n@),
        (forall|i: int|
            0 <= i < old(domains).deep_view().len() ==> domain_wf(
                #[trigger] old(domains).deep_view()[i],
            )) ==> (forall|i: int|
            0 <= i < final(domains).deep_view().len() ==> domain_wf(
                #[trigger] final(domains).deep_view()[i],
            )),
{
    match Domain::try_from(o, n) {
        Ok(d) => {
            domains.push(d);
            proof {
                assert(domains.deep_view() =~= old(domains).deep_view().push(d@));
            }
        },
        Err(_) => {
            proof {
                assert(domains.deep_view() =~= old(domains).deep_view());
            }
        },
    }
}

impl Default for Config {
    /// The default table of privacy front-end mappings.
    fn default() -> (r: Self)
        ensures
            r@.domains == spec_default_domains(),
            config_wf(r@),
    {
        let mut domains: Vec<Domain> = Vec::new();
        proof {
            assert(domains.deep_view() =~= Seq::<DomainView>::empty());
        }
        push_pair(&mut domains, "https://youtube.com/", "https://piped.kavin.rocks/");
        push_pair(&mut domains, "https://www.youtube.com/", "https://piped.kavin.rocks/");
        push_pair(&mut domains, "https://youtu.be/", "https://piped.kavin.rocks/");
        push_pair(&mut domains, "https://t.co/", "https://nitter.net/");
        push_pair(&mut domains, "https://twitter.com/", "https://nitter.net/");
        push_pair(&mut domains, "https://reddit.com/", "https://libredd.it/");
        Config { domains }
    }
}

} // verus!
