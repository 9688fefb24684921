//! The library's JSON surface, written out as functions on character
//! sequences: a mapping entry is an object with exactly the two string
//! fields `old` and `new`, a table an object with the one field `domains`
//! holding an array of such objects.

use vstd::prelude::*;

use crate::types::domain::DomainView;

verus! {

/// Relies on std's `String::push`: appends exactly the one character.
#[verifier::external_body]
pub(crate) fn push_char(s: &mut String, c: char)
    ensures
        final(s)@ == old(s)@.push(c),
{
    s.push(c);
}

/// How one character is written inside a JSON string: quotes and backslashes
/// escaped, everything else literal.
pub open spec fn escape_char(c: char) -> Seq<char> {
    if c == '"' {
        seq!['\\', '"']
    } else if c == '\\' {
        seq!['\\', '\\']
    } else {
        seq![c]
    }
}

/// A whole string escaped for use inside JSON quotes.
pub open spec fn escape_string(s: Seq<char>) -> Seq<char>
    decreases s.len(),
{
    if s.len() == 0 {
        Seq::empty()
    } else {
        escape_string(s.drop_last()) + escape_char(s.last())
    }
}

/// Escaping distributes over concatenation.
pub proof fn lemma_escape_append(a: Seq<char>, b: Seq<char>)
    ensures
        escape_string(a + b) == escape_string(a) + escape_string(b),
    decreases b.len(),
{
    if b.len() == 0 {
        assert(a + b =~= a);
        assert(escape_string(a) + escape_string(b) =~= escape_string(a));
    } else {
        lemma_escape_append(a, b.drop_last());
        assert((a + b).drop_last() =~= a + b.drop_last());
        assert((a + b).last() == b.last());
        assert(escape_string(a) + escape_string(b) =~= escape_string(a) + (escape_string(
            b.drop_last(),
        ) + escape_char(b.last())));
    }
}

/// A string peels from the front: the first character's escape, then the
/// escape of the rest.
pub proof fn lemma_escape_head(s: Seq<char>)
    requires
        s.len() > 0,
    ensures
        escape_string(s) == escape_char(s[0]) + escape_string(s.drop_first()),
{
    assert(s =~= seq![s[0]] + s.drop_first());
    lemma_escape_append(seq![s[0]], s.drop_first());
    assert(seq![s[0]].drop_last() =~= Seq::<char>::empty());
    assert(escape_string(Seq::<char>::empty()) == Seq::<char>::empty());
    assert(Seq::<char>::empty() + escape_char(s[0]) =~= escape_char(s[0]));
    assert(escape_string(seq![s[0]]) =~= escape_char(s[0]));
}

/// A JSON string token: the content escaped, between double quotes.
pub open spec fn jstring_of(content: Seq<char>) -> Seq<char> {
    seq!['"'] + escape_string(content) + seq!['"']
}

/// Append `content` to `out` as a JSON string token.
pub(crate) fn emit_jstring(out: &mut String, content: &str)
    ensures
        final(out)@ == old(out)@ + jstring_of(content@),
{
    push_char(out, '"');
    let n = content.unicode_len();
    let mut i: usize = 0;
    proof {
        assert(content@.take(0) =~= Seq::<char>::empty());
        assert(out@ =~= old(out)@ + seq!['"'] + escape_string(content@.take(0)));
    }
    while i < n
        invariant
            n == content@.len(),
            i <= n,
            out@ == old(out)@ + seq!['"'] + escape_string(content@.take(i as int)),
        decreases n - i,
    {
        let c = content.get_char(i);
        proof {
            assert(content@.take(i as int + 1).drop_last() =~= content@.take(i as int));
            assert(content@.take(i as int + 1).last() == content@[i as int]);
        }
        if c == '"' {
            push_char(out, '\\');
            push_char(out, '"');
        } else if c == '\\' {
            push_char(out, '\\');
            push_char(out, '\\');
        } else {
            push_char(out, c);
        }
        proof {
            assert(out@ =~= old(out)@ + seq!['"'] + escape_string(content@.take(i as int + 1)));
        }
        i = i + 1;
    }
    proof {
        assert(content@.take(n as int) =~= content@);
    }
    push_char(out, '"');
    proof {
        assert(out@ =~= old(out)@ + jstring_of(content@));
    }
}

/// The character an escape sequence `\c` stands for, if `c` is a recognized
/// escape.
pub open spec fn unescape_char(c: char) -> Option<char> {
    if c == '"' {
        Some('"')
    } else if c == '\\' {
        Some('\\')
    } else if c == '/' {
        Some('/')
    } else if c == 'n' {
        Some('\n')
    } else if c == 't' {
        Some('\t')
    } else if c == 'r' {
        Some('\r')
    } else if c == 'b' {
        Some('\u{0008}')
    } else if c == 'f' {
        Some('\u{000C}')
    } else {
        None
    }
}

fn unescape_char_exec(c: char) -> (r: Option<char>)
    ensures
        r == unescape_char(c),
{
    if c == '"' {
        Some('"')
    } else if c == '\\' {
        Some('\\')
    } else if c == '/' {
        Some('/')
    } else if c == 'n' {
        Some('\n')
    } else if c == 't' {
        Some('\t')
    } else if c == 'r' {
        Some('\r')
    } else if c == 'b' {
        Some('\u{0008}')
    } else if c == 'f' {
        Some('\u{000C}')
    } else {
        None
    }
}

/// Parse the body of a JSON string starting just after its opening quote:
/// the unescaped content, and the position just after the closing quote.
pub open spec fn parse_jstring(s: Seq<char>, i: int) -> Option<(Seq<char>, int)>
    decreases s.len() - i,
{
    if i < 0 || i >= s.len() {
        None
    } else if s[i] == '"' {
        Some((Seq::empty(), i + 1))
    } else if s[i] == '\\' {
        if i + 1 < s.len() {
            match unescape_char(s[i + 1]) {
                Some(c) => match parse_jstring(s, i + 2) {
                    Some((rest, j)) => Some((seq![c] + rest, j)),
                    None => None,
                },
                None => None,
            }
        } else {
            None
        }
    } else {
        match parse_jstring(s, i + 1) {
            Some((rest, j)) => Some((seq![s[i]] + rest, j)),
            None => None,
        }
    }
}

/// A parsed string token ends after where it started, within the text.
pub proof fn lemma_parse_jstring_bounds(s: Seq<char>, i: int)
    requires
        parse_jstring(s, i) is Some,
    ensures
        i < parse_jstring(s, i)->Some_0.1 <= s.len(),
    decreases s.len() - i,
{
    if s[i] == '"' {
    } else if s[i] == '\\' {
        lemma_parse_jstring_bounds(s, i + 2);
    } else {
        lemma_parse_jstring_bounds(s, i + 1);
    }
}

/// Parsing inverts escaping: where the text from `i` reads as the escaped
/// content followed by a closing quote, the parser returns exactly the
/// content and stops just past that quote.
pub proof fn lemma_parse_jstring_round_trip(s: Seq<char>, i: int, content: Seq<char>)
    requires
        0 <= i,
        i + escape_string(content).len() + 1 <= s.len(),
        s.subrange(i, i + escape_string(content).len() + 1) == escape_string(content) + seq!['"'],
    ensures
        parse_jstring(s, i) == Some((content, i + escape_string(content).len() + 1)),
    decreases content.len(),
{
    let e = escape_string(content);
    if content.len() == 0 {
        assert(e =~= Seq::<char>::empty());
        assert(s[i] == (e + seq!['"'])[0]);
    } else {
        let c = content[0];
        let rest = content.drop_first();
        lemma_escape_head(content);
        let erest = escape_string(rest);
        let ec = escape_char(c);
        assert(e == ec + erest);
        assert(s[i] == e[0]) by {
            assert(s.subrange(i, i + e.len() + 1)[0] == s[i + 0]);
        }
        if ec.len() >= 2 {
            assert(s[i + 1] == e[1]) by {
                assert(s.subrange(i, i + e.len() + 1)[1] == s[i + 1]);
            }
        }
        let inext = i + ec.len();
        assert(s.subrange(inext, inext + erest.len() + 1) =~= erest + seq!['"']) by {
            assert forall|k: int| 0 <= k < erest.len() + 1 implies s.subrange(
                inext,
                inext + erest.len() + 1,
            )[k] == (erest + seq!['"'])[k] by {
                assert(s.subrange(inext, inext + erest.len() + 1)[k] == s[inext + k]);
                assert((e + seq!['"'])[ec.len() + k] == (erest + seq!['"'])[k]);
                assert(s.subrange(i, i + e.len() + 1)[ec.len() + k] == s[inext + k]);
            }
        }
        lemma_parse_jstring_round_trip(s, inext, rest);
        if c == '"' || c == '\\' {
            assert(s[i] == '\\');
            assert(s[i + 1] == c);
            assert(unescape_char(c) == Some(c));
            assert(seq![c] + rest =~= content);
        } else {
            assert(s[i] == c);
            assert(s[i] != '"' && s[i] != '\\');
            assert(seq![c] + rest =~= content);
        }
    }
}

/// Parse a JSON string body, starting just after the opening quote.
pub(crate) fn take_jstring(s: &str, i: usize) -> (r: Option<(String, usize)>)
    requires
        i <= s@.len(),
    ensures
        match r {
            Some(p) => parse_jstring(s@, i as int) == Some((p.0@, p.1 as int)) && i < p.1
                <= s@.len(),
            None => parse_jstring(s@, i as int) is None,
        },
    decreases s@.len() - i,
{
    let n = s.unicode_len();
    if i >= n {
        return None;
    }
    let c = s.get_char(i);
    if c == '"' {
        let empty = String::new();
        proof {
            assert(empty@ =~= Seq::<char>::empty());
        }
        Some((empty, i + 1))
    } else if c == '\\' {
        if i + 1 < n {
            match unescape_char_exec(s.get_char(i + 1)) {
                Some(u) => match take_jstring(s, i + 2) {
                    Some(p) => {
                        let mut out = String::new();
                        push_char(&mut out, u);
                        out.append(p.0.as_str());
                        proof {
                            assert(out@ =~= seq![u] + p.0@);
                        }
                        Some((out, p.1))
                    },
                    None => None,
                },
                None => None,
            }
        } else {
            None
        }
    } else {
        match take_jstring(s, i + 1) {
            Some(p) => {
                let mut out = String::new();
                push_char(&mut out, c);
                out.append(p.0.as_str());
                proof {
                    assert(out@ =~= seq![c] + p.0@);
                }
                Some((out, p.1))
            },
            None => None,
        }
    }
}

/// The whitespace JSON allows between tokens.
pub open spec fn is_json_ws(c: char) -> bool {
    c == ' ' || c == '\t' || c == '\n' || c == '\r'
}

/// The first position at or after `i` holding no JSON whitespace.
pub open spec fn skip_ws(s: Seq<char>, i: int) -> int
    decreases s.len() - i,
{
    if 0 <= i && i < s.len() && is_json_ws(s[i]) {
        skip_ws(s, i + 1)
    } else {
        i
    }
}

pub proof fn lemma_skip_ws_bounds(s: Seq<char>, i: int)
    requires
        0 <= i <= s.len(),
    ensures
        i <= skip_ws(s, i) <= s.len(),
    decreases s.len() - i,
{
    if i < s.len() && is_json_ws(s[i]) {
        lemma_skip_ws_bounds(s, i + 1);
    }
}

pub(crate) fn skip_ws_exec(s: &str, i: usize) -> (r: usize)
    requires
        i <= s@.len(),
    ensures
        r as int == skip_ws(s@, i as int),
        i <= r <= s@.len(),
{
    let n = s.unicode_len();
    let mut j = i;
    loop
        invariant
            n == s@.len(),
            i <= j <= n,
            skip_ws(s@, i as int) == skip_ws(s@, j as int),
        decreases n - j,
    {
        if j < n {
            let c = s.get_char(j);
            if c == ' ' || c == '\t' || c == '\n' || c == '\r' {
                j = j + 1;
            } else {
                return j;
            }
        } else {
            return j;
        }
    }
}

/// `Some` of the position just past `lit` where the text at `i` starts with
/// `lit`, `None` otherwise.
pub open spec fn expect_lit(s: Seq<char>, i: int, lit: Seq<char>) -> Option<int> {
    if 0 <= i && i + lit.len() <= s.len() && s.subrange(i, i + lit.len()) == lit {
        Some(i + lit.len())
    } else {
        None
    }
}

fn expect_at(s: &str, i: usize, lit: &str) -> (r: Option<usize>)
    requires
        i <= s@.len(),
    ensures
        match r {
            Some(j) => expect_lit(s@, i as int, lit@) == Some(j as int) && i <= j <= s@.len(),
            None => expect_lit(s@, i as int, lit@) is None,
        },
{
    let m = lit.unicode_len();
    let n = s.unicode_len();
    if m > n - i {
        return None;
    }
    let mut k: usize = 0;
    while k < m
        invariant
            m == lit@.len(),
            n == s@.len(),
            i + m <= n,
            k <= m,
            forall|t: int| 0 <= t < k ==> s@[i + t] == lit@[t],
        decreases m - k,
    {
        if s.get_char(i + k) != lit.get_char(k) {
            proof {
                assert(s@.subrange(i as int, i as int + m as int)[k as int] == s@[i as int
                    + k as int]);
            }
            return None;
        }
        k = k + 1;
    }
    proof {
        assert(s@.subrange(i as int, i as int + m as int) =~= lit@);
    }
    Some(i + m)
}

pub open spec fn key_old() -> Seq<char> {
    seq!['"', 'o', 'l', 'd', '"']
}

pub open spec fn key_new() -> Seq<char> {
    seq!['"', 'n', 'e', 'w', '"']
}

pub open spec fn key_domains() -> Seq<char> {
    seq!['"', 'd', 'o', 'm', 'a', 'i', 'n', 's', '"']
}

/// Parse `<key> : "<string>"` starting at `i`, whitespace allowed around the
/// tokens: the string's content and the position just past its closing quote.
pub open spec fn parse_keyed_string(s: Seq<char>, i: int, key: Seq<char>) -> Option<
    (Seq<char>, int),
> {
    match expect_lit(s, skip_ws(s, i), key) {
        Some(j1) => match expect_lit(s, skip_ws(s, j1), seq![':']) {
            Some(j2) => match expect_lit(s, skip_ws(s, j2), seq!['"']) {
                Some(j3) => parse_jstring(s, j3),
                None => None,
            },
            None => None,
        },
        None => None,
    }
}

pub proof fn lemma_parse_keyed_bounds(s: Seq<char>, i: int, key: Seq<char>)
    requires
        0 <= i <= s.len(),
        key.len() > 0,
        parse_keyed_string(s, i, key) is Some,
    ensures
        i < parse_keyed_string(s, i, key)->Some_0.1 <= s.len(),
{
    lemma_skip_ws_bounds(s, i);
    let j1 = expect_lit(s, skip_ws(s, i), key)->Some_0;
    lemma_skip_ws_bounds(s, j1);
    let j2 = expect_lit(s, skip_ws(s, j1), seq![':'])->Some_0;
    lemma_skip_ws_bounds(s, j2);
    let j3 = expect_lit(s, skip_ws(s, j2), seq!['"'])->Some_0;
    lemma_parse_jstring_bounds(s, j3);
}

/// Parse one entry object `{ "old": "...", "new": "..." }` starting at `i`:
/// the two raw strings and the position just past the closing brace.
pub open spec fn parse_entry(s: Seq<char>, i: int) -> Option<((Seq<char>, Seq<char>), int)> {
    match expect_lit(s, skip_ws(s, i), seq!['{']) {
        Some(j0) => match parse_keyed_string(s, j0, key_old()) {
            Some((o, j1)) => match expect_lit(s, skip_ws(s, j1), seq![',']) {
                Some(j2) => match parse_keyed_string(s, j2, key_new()) {
                    Some((n, j3)) => match expect_lit(s, skip_ws(s, j3), seq!['}']) {
                        Some(j4) => Some(((o, n), j4)),
                        None => None,
                    },
                    None => None,
                },
                None => None,
            },
            None => None,
        },
        None => None,
    }
}

pub proof fn lemma_parse_entry_bounds(s: Seq<char>, i: int)
    requires
        0 <= i <= s.len(),
        parse_entry(s, i) is Some,
    ensures
        i < parse_entry(s, i)->Some_0.1 <= s.len(),
{
    lemma_skip_ws_bounds(s, i);
    let j0 = expect_lit(s, skip_ws(s, i), seq!['{'])->Some_0;
    lemma_parse_keyed_bounds(s, j0, key_old());
    let j1 = parse_keyed_string(s, j0, key_old())->Some_0.1;
    lemma_skip_ws_bounds(s, j1);
    let j2 = expect_lit(s, skip_ws(s, j1), seq![','])->Some_0;
    lemma_parse_keyed_bounds(s, j2, key_new());
    let j3 = parse_keyed_string(s, j2, key_new())->Some_0.1;
    lemma_skip_ws_bounds(s, j3);
}

fn take_keyed_string(s: &str, i: usize, key: &str) -> (r: Option<(String, usize)>)
    requires
        i <= s@.len(),
    ensures
        match r {
            Some(p) => parse_keyed_string(s@, i as int, key@) == Some((p.0@, p.1 as int)) && p.1
                <= s@.len(),
            None => parse_keyed_string(s@, i as int, key@) is None,
        },
{
    proof {
        reveal_strlit(":");
        reveal_strlit("\"");
        assert((":")@ =~= seq![':']);
        assert(("\"")@ =~= seq!['"']);
    }
    let j0 = skip_ws_exec(s, i);
    match expect_at(s, j0, key) {
        Some(j1) => {
            let j1b = skip_ws_exec(s, j1);
            match expect_at(s, j1b, ":") {
                Some(j2) => {
                    let j2b = skip_ws_exec(s, j2);
                    match expect_at(s, j2b, "\"") {
                        Some(j3) => take_jstring(s, j3),
                        None => None,
                    }
                },
                None => None,
            }
        },
        None => None,
    }
}

/// Parse one entry object, exec counterpart of `parse_entry`.
pub(crate) fn take_entry(s: &str, i: usize) -> (r: Option<((String, String), usize)>)
    requires
        i <= s@.len(),
    ensures
        match r {
            Some(p) => parse_entry(s@, i as int) == Some(((p.0.0@, p.0.1@), p.1 as int)) && p.1
                <= s@.len(),
            None => parse_entry(s@, i as int) is None,
        },
{
    proof {
        reveal_strlit("{");
        reveal_strlit(",");
        reveal_strlit("}");
        reveal_strlit("\"old\"");
        reveal_strlit("\"new\"");
        assert(("{")@ =~= seq!['{']);
        assert((",")@ =~= seq![',']);
        assert(("}")@ =~= seq!['}']);
        assert(("\"old\"")@ =~= key_old());
        assert(("\"new\"")@ =~= key_new());
    }
    let j = skip_ws_exec(s, i);
    match expect_at(s, j, "{") {
        Some(j0) => match take_keyed_string(s, j0, "\"old\"") {
            Some(p1) => {
                let j1b = skip_ws_exec(s, p1.1);
                match expect_at(s, j1b, ",") {
                    Some(j2) => match take_keyed_string(s, j2, "\"new\"") {
                        Some(p2) => {
                            let j3b = skip_ws_exec(s, p2.1);
                            match expect_at(s, j3b, "}") {
                                Some(j4) => Some(((p1.0, p2.0), j4)),
                                None => None,
                            }
                        },
                        None => None,
                    },
                    None => None,
                }
            },
            None => None,
        },
        None => None,
    }
}

/// The canonical JSON text of one entry: an object with exactly the two
/// string fields `old` and `new`, holding the entry's URL texts.
pub open spec fn domain_json(d: DomainView) -> Seq<char> {
    seq!['{'] + key_old() + seq![':'] + jstring_of(d.old.text) + seq![','] + key_new() + seq![':']
        + jstring_of(d.new.text) + seq!['}']
}

/// The canonical JSON array body of a table's entries, comma-separated.
pub open spec fn entries_json(ds: Seq<DomainView>) -> Seq<char>
    decreases ds.len(),
{
    if ds.len() == 0 {
        Seq::empty()
    } else if ds.len() == 1 {
        domain_json(ds[0])
    } else {
        entries_json(ds.drop_last()) + seq![','] + domain_json(ds.last())
    }
}

/// The canonical JSON text of a table: an object with the one field
/// `domains`, holding the array of its entries in order.
pub open spec fn table_json(ds: Seq<DomainView>) -> Seq<char> {
    seq!['{'] + key_domains() + seq![':'] + seq!['['] + entries_json(ds) + seq![']'] + seq!['}']
}

/// A non-empty entry list peels from the front: the first entry's text, then
/// a comma and the rest, unless it was the only one.
pub proof fn lemma_entries_json_head(ds: Seq<DomainView>)
    requires
        ds.len() > 0,
    ensures
        entries_json(ds) == if ds.len() == 1 {
            domain_json(ds[0])
        } else {
            domain_json(ds[0]) + seq![','] + entries_json(ds.drop_first())
        },
    decreases ds.len(),
{
    if ds.len() > 1 {
        lemma_entries_json_head(ds.drop_last());
        assert(ds.drop_last()[0] == ds[0]);
        if ds.len() == 2 {
            assert(ds.drop_last() =~= seq![ds[0]]);
            assert(ds.drop_first() =~= seq![ds[1]]);
            assert(entries_json(ds.drop_first()) == domain_json(ds[1]));
        } else {
            assert(ds.drop_last().drop_first() =~= ds.drop_first().drop_last());
            assert(ds.drop_first().last() == ds.last());
            assert(ds.drop_first().len() > 1);
            assert(entries_json(ds.drop_first()) == entries_json(ds.drop_first().drop_last())
                + seq![','] + domain_json(ds.drop_first().last()));
            assert((domain_json(ds[0]) + seq![','] + entries_json(ds.drop_last().drop_first()))
                + seq![','] + domain_json(ds.last()) =~= domain_json(ds[0]) + seq![','] + (
            entries_json(ds.drop_first().drop_last()) + seq![','] + domain_json(
                ds.drop_first().last(),
            )));
        }
    }
}

/// Append the canonical JSON text of one entry, given its two URL texts.
pub(crate) fn emit_entry(out: &mut String, old_text: &str, new_text: &str)
    ensures
        final(out)@ == old(out)@ + seq!['{'] + key_old() + seq![':'] + jstring_of(old_text@)
            + seq![','] + key_new() + seq![':'] + jstring_of(new_text@) + seq!['}'],
{
    proof {
        reveal_strlit("{\"old\":");
        reveal_strlit(",\"new\":");
        assert(("{\"old\":")@ =~= seq!['{'] + key_old() + seq![':']);
        assert((",\"new\":")@ =~= seq![','] + key_new() + seq![':']);
    }
    out.append("{\"old\":");
    emit_jstring(out, old_text);
    out.append(",\"new\":");
    emit_jstring(out, new_text);
    push_char(out, '}');
    proof {
        assert(out@ =~= old(out)@ + seq!['{'] + key_old() + seq![':'] + jstring_of(old_text@)
            + seq![','] + key_new() + seq![':'] + jstring_of(new_text@) + seq!['}']);
    }
}

/// Parse the entries of a non-empty array starting at the first entry:
/// the raw string pairs, and the position just past the closing bracket.
pub open spec fn parse_entries(s: Seq<char>, i: int) -> Option<(Seq<(Seq<char>, Seq<char>)>, int)>
    decreases s.len() - i,
    when 0 <= i <= s.len()
    via parse_entries_dec
{
    match parse_entry(s, i) {
        Some((e, j)) => {
            let j1 = skip_ws(s, j);
            match expect_lit(s, j1, seq![',']) {
                Some(j2) => match parse_entries(s, j2) {
                    Some((rest, k)) => Some((seq![e] + rest, k)),
                    None => None,
                },
                None => match expect_lit(s, j1, seq![']']) {
                    Some(j2) => Some((seq![e], j2)),
                    None => None,
                },
            }
        },
        None => None,
    }
}

#[via_fn]
proof fn parse_entries_dec(s: Seq<char>, i: int) {
    if parse_entry(s, i) is Some {
        lemma_parse_entry_bounds(s, i);
        let j = parse_entry(s, i)->Some_0.1;
        lemma_skip_ws_bounds(s, j);
    }
}


/// Parse a non-empty entry array body, exec counterpart of `parse_entries`.
pub(crate) fn take_entries(s: &str, i: usize) -> (r: Option<(Vec<(String, String)>, usize)>)
    requires
        i <= s@.len(),
    ensures
        match r {
            Some(p) => parse_entries(s@, i as int) == Some((p.0.deep_view(), p.1 as int)) && p.1
                <= s@.len(),
            None => parse_entries(s@, i as int) is None,
        },
    decreases s@.len() - i,
{
    proof {
        reveal_strlit(",");
        reveal_strlit("]");
        assert((",")@ =~= seq![',']);
        assert(("]")@ =~= seq![']']);
    }
    match take_entry(s, i) {
        Some((pair, j)) => {
            proof {
                lemma_parse_entry_bounds(s@, i as int);
            }
            let j1 = skip_ws_exec(s, j);
            match expect_at(s, j1, ",") {
                Some(j2) => match take_entries(s, j2) {
                    Some((mut rest, k)) => {
                        let ghost prev = rest.deep_view();
                        rest.insert(0, pair);
                        proof {
                            assert(rest.deep_view() =~= seq![(pair.0@, pair.1@)] + prev);
                        }
                        Some((rest, k))
                    },
                    None => None,
                },
                None => match expect_at(s, j1, "]") {
                    Some(j2) => {
                        let mut v: Vec<(String, String)> = Vec::new();
                        v.push(pair);
                        proof {
                            assert(v.deep_view() =~= seq![(pair.0@, pair.1@)]);
                        }
                        Some((v, j2))
                    },
                    None => None,
                },
            }
        },
        None => None,
    }
}

/// A window into a known region of `s` equals the matching window of the
/// region's own text.
pub proof fn lemma_window(s: Seq<char>, i: int, whole: Seq<char>, a: int, b: int)
    requires
        0 <= i,
        i + whole.len() <= s.len(),
        s.subrange(i, i + whole.len()) == whole,
        0 <= a <= b <= whole.len(),
    ensures
        s.subrange(i + a, i + b) == whole.subrange(a, b),
{
    assert forall|k: int| 0 <= k < b - a implies s.subrange(i + a, i + b)[k] == whole.subrange(
        a,
        b,
    )[k] by {
        assert(s.subrange(i, i + whole.len())[a + k] == s[i + a + k]);
        assert(s.subrange(i + a, i + b)[k] == s[i + a + k]);
    }
    assert(s.subrange(i + a, i + b) =~= whole.subrange(a, b));
}

/// One character of a known region of `s`.
pub proof fn lemma_window_char(s: Seq<char>, i: int, whole: Seq<char>, a: int)
    requires
        0 <= i,
        i + whole.len() <= s.len(),
        s.subrange(i, i + whole.len()) == whole,
        0 <= a < whole.len(),
    ensures
        s[i + a] == whole[a],
{
    assert(s.subrange(i, i + whole.len())[a] == s[i + a]);
}

/// Parsing inverts emission for one entry: where the text from `i` reads as
/// the canonical JSON of entry `d`, the parser returns exactly `d`'s two URL
/// texts and stops at the end of that JSON.
pub proof fn lemma_parse_entry_round_trip(s: Seq<char>, i: int, d: DomainView)
    requires
        0 <= i,
        i + domain_json(d).len() <= s.len(),
        s.subrange(i, i + domain_json(d).len()) == domain_json(d),
    ensures
        parse_entry(s, i) == Some(((d.old.text, d.new.text), i + domain_json(d).len())),
{
    let whole = domain_json(d);
    let e1 = escape_string(d.old.text);
    let e2 = escape_string(d.new.text);
    let k1: int = 1;
    let k2 = k1 + 5;
    let k3 = k2 + 1;
    let k4 = k3 + 1;
    let k5 = k4 + e1.len() + 1;
    let k6 = k5 + 1;
    let k7 = k6 + 5;
    let k8 = k7 + 1;
    let k9 = k8 + 1;
    let k10 = k9 + e2.len() + 1;
    let k11 = k10 + 1;
    assert(whole.len() == k11);
    lemma_window_char(s, i, whole, 0);
    assert(whole[0] == '{');
    assert(skip_ws(s, i) == i);
    assert(s.subrange(i, i + 1) =~= seq!['{']) by {
        lemma_window(s, i, whole, 0, 1);
        assert(whole.subrange(0, 1) =~= seq!['{']);
    }
    assert(expect_lit(s, i, seq!['{']) == Some(i + k1));
    lemma_window_char(s, i, whole, k1);
    assert(whole[k1] == '"');
    assert(skip_ws(s, i + k1) == i + k1);
    assert(s.subrange(i + k1, i + k2) =~= key_old()) by {
        lemma_window(s, i, whole, k1, k2);
        assert(whole.subrange(k1, k2) =~= key_old());
    }
    assert(expect_lit(s, i + k1, key_old()) == Some(i + k2));
    lemma_window_char(s, i, whole, k2);
    assert(whole[k2] == ':');
    assert(skip_ws(s, i + k2) == i + k2);
    assert(s.subrange(i + k2, i + k3) =~= seq![':']) by {
        lemma_window(s, i, whole, k2, k3);
        assert(whole.subrange(k2, k3) =~= seq![':']);
    }
    assert(expect_lit(s, i + k2, seq![':']) == Some(i + k3));
    lemma_window_char(s, i, whole, k3);
    assert(whole[k3] == '"');
    assert(skip_ws(s, i + k3) == i + k3);
    assert(s.subrange(i + k3, i + k4) =~= seq!['"']) by {
        lemma_window(s, i, whole, k3, k4);
        assert(whole.subrange(k3, k4) =~= seq!['"']);
    }
    assert(expect_lit(s, i + k3, seq!['"']) == Some(i + k4));
    assert(s.subrange(i + k4, i + k5) == e1 + seq!['"']) by {
        lemma_window(s, i, whole, k4, k5);
        assert(whole.subrange(k4, k5) =~= e1 + seq!['"']);
    }
    lemma_parse_jstring_round_trip(s, i + k4, d.old.text);
    assert(parse_jstring(s, i + k4) == Some((d.old.text, i + k5)));
    assert(parse_keyed_string(s, i + k1, key_old()) == Some((d.old.text, i + k5)));
    lemma_window_char(s, i, whole, k5);
    assert(whole[k5] == ',');
    assert(skip_ws(s, i + k5) == i + k5);
    assert(s.subrange(i + k5, i + k6) =~= seq![',']) by {
        lemma_window(s, i, whole, k5, k6);
        assert(whole.subrange(k5, k6) =~= seq![',']);
    }
    assert(expect_lit(s, i + k5, seq![',']) == Some(i + k6));
    lemma_window_char(s, i, whole, k6);
    assert(whole[k6] == '"');
    assert(skip_ws(s, i + k6) == i + k6);
    assert(s.subrange(i + k6, i + k7) =~= key_new()) by {
        lemma_window(s, i, whole, k6, k7);
        assert(whole.subrange(k6, k7) =~= key_new());
    }
    assert(expect_lit(s, i + k6, key_new()) == Some(i + k7));
    lemma_window_char(s, i, whole, k7);
    assert(whole[k7] == ':');
    assert(skip_ws(s, i + k7) == i + k7);
    assert(s.subrange(i + k7, i + k8) =~= seq![':']) by {
        lemma_window(s, i, whole, k7, k8);
        assert(whole.subrange(k7, k8) =~= seq![':']);
    }
    assert(expect_lit(s, i + k7, seq![':']) == Some(i + k8));
    lemma_window_char(s, i, whole, k8);
    assert(whole[k8] == '"');
    assert(skip_ws(s, i + k8) == i + k8);
    assert(s.subrange(i + k8, i + k9) =~= seq!['"']) by {
        lemma_window(s, i, whole, k8, k9);
        assert(whole.subrange(k8, k9) =~= seq!['"']);
    }
    assert(expect_lit(s, i + k8, seq!['"']) == Some(i + k9));
    assert(s.subrange(i + k9, i + k10) == e2 + seq!['"']) by {
        lemma_window(s, i, whole, k9, k10);
        assert(whole.subrange(k9, k10) =~= e2 + seq!['"']);
    }
    lemma_parse_jstring_round_trip(s, i + k9, d.new.text);
    assert(parse_jstring(s, i + k9) == Some((d.new.text, i + k10)));
    assert(parse_keyed_string(s, i + k6, key_new()) == Some((d.new.text, i + k10)));
    lemma_window_char(s, i, whole, k10);
    assert(whole[k10] == '}');
    assert(skip_ws(s, i + k10) == i + k10);
    assert(s.subrange(i + k10, i + k11) =~= seq!['}']) by {
        lemma_window(s, i, whole, k10, k11);
        assert(whole.subrange(k10, k11) =~= seq!['}']);
    }
    assert(expect_lit(s, i + k10, seq!['}']) == Some(i + k11));
}

/// The raw URL-text pairs of a list of entries.
pub open spec fn pairs_of(ds: Seq<DomainView>) -> Seq<(Seq<char>, Seq<char>)> {
    Seq::new(ds.len(), |k: int| (ds[k].old.text, ds[k].new.text))
}

/// Parsing inverts emission for a non-empty entry list followed by the
/// array's closing bracket.
pub proof fn lemma_parse_entries_round_trip(s: Seq<char>, i: int, ds: Seq<DomainView>)
    requires
        ds.len() > 0,
        0 <= i,
        i + entries_json(ds).len() + 1 <= s.len(),
        s.subrange(i, i + entries_json(ds).len() + 1) == entries_json(ds) + seq![']'],
    ensures
        parse_entries(s, i) == Some((pairs_of(ds), i + entries_json(ds).len() + 1)),
    decreases ds.len(),
{
    let whole = entries_json(ds) + seq![']'];
    let ej = entries_json(ds);
    let d0 = domain_json(ds[0]);
    lemma_entries_json_head(ds);
    assert(s.subrange(i, i + d0.len()) == d0) by {
        lemma_window(s, i, whole, 0, d0.len() as int);
        assert(whole.subrange(0, d0.len() as int) =~= d0);
    }
    lemma_parse_entry_round_trip(s, i, ds[0]);
    let j = i + d0.len() as int;
    if ds.len() == 1 {
        assert(ej == d0);
        lemma_window_char(s, i, whole, d0.len() as int);
        assert(whole[d0.len() as int] == ']');
        assert(skip_ws(s, j) == j);
        assert(s.subrange(j, j + 1) =~= seq![']']) by {
            lemma_window(s, i, whole, d0.len() as int, d0.len() as int + 1);
            assert(whole.subrange(d0.len() as int, d0.len() as int + 1) =~= seq![']']);
        }
        assert(expect_lit(s, j, seq![']']) == Some(j + 1));
        assert(expect_lit(s, j, seq![',']) is None) by {
            assert(s.subrange(j, j + 1) != seq![',']) by {
                assert(s.subrange(j, j + 1)[0] == ']');
            }
        }
        assert(pairs_of(ds) =~= seq![(ds[0].old.text, ds[0].new.text)]);
    } else {
        let rest = ds.drop_first();
        assert(ej == d0 + seq![','] + entries_json(rest));
        lemma_window_char(s, i, whole, d0.len() as int);
        assert(whole[d0.len() as int] == ',');
        assert(skip_ws(s, j) == j);
        assert(s.subrange(j, j + 1) =~= seq![',']) by {
            lemma_window(s, i, whole, d0.len() as int, d0.len() as int + 1);
            assert(whole.subrange(d0.len() as int, d0.len() as int + 1) =~= seq![',']);
        }
        assert(expect_lit(s, j, seq![',']) == Some(j + 1));
        let j2 = j + 1;
        assert(s.subrange(j2, j2 + entries_json(rest).len() + 1) == entries_json(rest) + seq![']'])
            by {
            lemma_window(s, i, whole, d0.len() as int + 1, whole.len() as int);
            assert(whole.subrange(d0.len() as int + 1, whole.len() as int) =~= entries_json(rest)
                + seq![']']);
        }
        lemma_parse_entries_round_trip(s, j2, rest);
        assert(seq![(ds[0].old.text, ds[0].new.text)] + pairs_of(rest) =~= pairs_of(ds));
    }
}

/// Parse a whole table document `{ "domains": [ ... ] }`: the raw string
/// pairs of its entries, in order. `None` where the text is not of that
/// shape.
pub open spec fn parse_table(s: Seq<char>) -> Option<Seq<(Seq<char>, Seq<char>)>> {
    match expect_lit(s, skip_ws(s, 0), seq!['{']) {
        Some(j0) => match expect_lit(s, skip_ws(s, j0), key_domains()) {
            Some(j1) => match expect_lit(s, skip_ws(s, j1), seq![':']) {
                Some(j2) => match expect_lit(s, skip_ws(s, j2), seq!['[']) {
                    Some(j3) => match expect_lit(s, skip_ws(s, j3), seq![']']) {
                        Some(j4) => if table_tail_ok(s, j4) {
                            Some(Seq::empty())
                        } else {
                            None
                        },
                        None => match parse_entries(s, j3) {
                            Some((ps, j4)) => if table_tail_ok(s, j4) {
                                Some(ps)
                            } else {
                                None
                            },
                            None => None,
                        },
                    },
                    None => None,
                },
                None => None,
            },
            None => None,
        },
        None => None,
    }
}

/// The tail of a table document: the closing brace, then nothing but
/// whitespace.
pub open spec fn table_tail_ok(s: Seq<char>, j: int) -> bool {
    match expect_lit(s, skip_ws(s, j), seq!['}']) {
        Some(k) => skip_ws(s, k) == s.len(),
        None => false,
    }
}

/// Parse a whole entry document: one entry object, then nothing but
/// whitespace.
pub open spec fn parse_entry_text(s: Seq<char>) -> Option<(Seq<char>, Seq<char>)> {
    match parse_entry(s, 0) {
        Some((p, j)) => if skip_ws(s, j) == s.len() {
            Some(p)
        } else {
            None
        },
        None => None,
    }
}

/// Parsing inverts emission for a whole entry document.
pub proof fn lemma_parse_entry_text_round_trip(d: DomainView)
    ensures
        parse_entry_text(domain_json(d)) == Some((d.old.text, d.new.text)),
{
    let s = domain_json(d);
    assert(s.subrange(0, s.len() as int) =~= s);
    lemma_parse_entry_round_trip(s, 0, d);
    assert(skip_ws(s, s.len() as int) == s.len());
}

/// Parsing inverts emission for a whole table document.
pub proof fn lemma_parse_table_round_trip(ds: Seq<DomainView>)
    ensures
        parse_table(table_json(ds)) == Some(pairs_of(ds)),
{
    let s = table_json(ds);
    let ej = entries_json(ds);
    let j3: int = 12;
    assert(s.subrange(0, s.len() as int) =~= s);
    assert(s[0] == '{');
    assert(skip_ws(s, 0) == 0);
    assert(s.subrange(0, 1) =~= seq!['{']);
    assert(expect_lit(s, 0, seq!['{']) == Some(1int));
    assert(s[1] == '"');
    assert(skip_ws(s, 1) == 1);
    assert(s.subrange(1, 10) =~= key_domains());
    assert(expect_lit(s, 1, key_domains()) == Some(10int));
    assert(s[10] == ':');
    assert(skip_ws(s, 10) == 10);
    assert(s.subrange(10, 11) =~= seq![':']);
    assert(expect_lit(s, 10, seq![':']) == Some(11int));
    assert(s[11] == '[');
    assert(skip_ws(s, 11) == 11);
    assert(s.subrange(11, 12) =~= seq!['[']);
    assert(expect_lit(s, 11, seq!['[']) == Some(j3));
    if ds.len() == 0 {
        assert(ej =~= Seq::<char>::empty());
        assert(s[j3] == ']');
        assert(skip_ws(s, j3) == j3);
        assert(s.subrange(j3, j3 + 1) =~= seq![']']);
        assert(expect_lit(s, j3, seq![']']) == Some(j3 + 1));
        assert(s[j3 + 1] == '}');
        assert(skip_ws(s, j3 + 1) == j3 + 1);
        assert(s.subrange(j3 + 1, j3 + 2) =~= seq!['}']);
        assert(expect_lit(s, j3 + 1, seq!['}']) == Some(j3 + 2));
        assert(s.len() == j3 + 2);
        assert(skip_ws(s, j3 + 2) == s.len());
        assert(pairs_of(ds) =~= Seq::<(Seq<char>, Seq<char>)>::empty());
    } else {
        lemma_entries_json_head(ds);
        assert(ej[0] == '{');
        assert(s[j3] == '{');
        assert(skip_ws(s, j3) == j3);
        assert(expect_lit(s, j3, seq![']']) is None) by {
            assert(s.subrange(j3, j3 + 1) =~= seq!['{']);
            assert(s.subrange(j3, j3 + 1) != seq![']']) by {
                assert(s.subrange(j3, j3 + 1)[0] == '{');
            }
        }
        assert(s.subrange(j3, j3 + ej.len() + 1) =~= ej + seq![']']);
        lemma_parse_entries_round_trip(s, j3, ds);
        let j4 = j3 + ej.len() + 1;
        assert(s[j4] == '}');
        assert(skip_ws(s, j4) == j4);
        assert(s.subrange(j4, j4 + 1) =~= seq!['}']);
        assert(expect_lit(s, j4, seq!['}']) == Some(j4 + 1));
        assert(s.len() == j4 + 1);
        assert(skip_ws(s, j4 + 1) == s.len());
    }
}

/// Parse a whole table document, exec counterpart of `parse_table`.
pub(crate) fn take_table(s: &str) -> (r: Option<Vec<(String, String)>>)
    ensures
        match r {
            Some(v) => parse_table(s@) == Some(v.deep_view()),
            None => parse_table(s@) is None,
        },
{
    proof {
        reveal_strlit("{");
        reveal_strlit("}");
        reveal_strlit("[");
        reveal_strlit("]");
        reveal_strlit(":");
        reveal_strlit("\"domains\"");
        assert(("{")@ =~= seq!['{']);
        assert(("}")@ =~= seq!['}']);
        assert(("[")@ =~= seq!['[']);
        assert(("]")@ =~= seq![']']);
        assert((":")@ =~= seq![':']);
        assert(("\"domains\"")@ =~= key_domains());
    }
    let j = skip_ws_exec(s, 0);
    let j0 = match expect_at(s, j, "{") {
        Some(x) => x,
        None => {
            return None;
        },
    };
    let ja = skip_ws_exec(s, j0);
    let j1 = match expect_at(s, ja, "\"domains\"") {
        Some(x) => x,
        None => {
            return None;
        },
    };
    let jb = skip_ws_exec(s, j1);
    let j2 = match expect_at(s, jb, ":") {
        Some(x) => x,
        None => {
            return None;
        },
    };
    let jc = skip_ws_exec(s, j2);
    let j3 = match expect_at(s, jc, "[") {
        Some(x) => x,
        None => {
            return None;
        },
    };
    let jd = skip_ws_exec(s, j3);
    match expect_at(s, jd, "]") {
        Some(j4) => {
            let v: Vec<(String, String)> = Vec::new();
            proof {
                assert(v.deep_view() =~= Seq::<(Seq<char>, Seq<char>)>::empty());
            }
            if finish_table_exec(s, j4) {
                Some(v)
            } else {
                None
            }
        },
        None => match take_entries(s, j3) {
            Some((v, j4)) => {
                if finish_table_exec(s, j4) {
                    Some(v)
                } else {
                    None
                }
            },
            None => None,
        },
    }
}

/// The closing brace and trailing whitespace of a table document.
fn finish_table_exec(s: &str, j: usize) -> (r: bool)
    requires
        j <= s@.len(),
    ensures
        r == table_tail_ok(s@, j as int),
{
    proof {
        reveal_strlit("}");
        assert(("}")@ =~= seq!['}']);
    }
    let je = skip_ws_exec(s, j);
    match expect_at(s, je, "}") {
        Some(k) => {
            let jf = skip_ws_exec(s, k);
            jf == s.unicode_len()
        },
        None => false,
    }
}

} // verus!
