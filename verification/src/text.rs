//! Splitting text into whitespace-delimited tokens and joining tokens back
//! with single spaces.

use vstd::prelude::*;

verus! {

/// The five ASCII whitespace characters that delimit tokens.
pub open spec fn is_ascii_space(c: char) -> bool {
    c == ' ' || c == '\t' || c == '\n' || c == '\r' || c == '\u{000C}'
}

fn is_space_char(c: char) -> (r: bool)
    ensures
        r == is_ascii_space(c),
{
    c == ' ' || c == '\t' || c == '\n' || c == '\r' || c == '\u{000C}'
}

/// One left-to-right scan of `s`: the tokens completed so far, and the token
/// still open at the end of the scan.
pub open spec fn scan_tokens(s: Seq<char>) -> (Seq<Seq<char>>, Seq<char>)
    decreases s.len(),
{
    if s.len() == 0 {
        (Seq::empty(), Seq::empty())
    } else {
        let (done, cur) = scan_tokens(s.drop_last());
        if is_ascii_space(s.last()) {
            if cur.len() == 0 {
                (done, cur)
            } else {
                (done.push(cur), Seq::empty())
            }
        } else {
            (done, cur.push(s.last()))
        }
    }
}

/// The whitespace-delimited tokens of `s`, in order: maximal runs of
/// non-whitespace characters.
pub open spec fn tokens_of(s: Seq<char>) -> Seq<Seq<char>> {
    let (done, cur) = scan_tokens(s);
    if cur.len() == 0 {
        done
    } else {
        done.push(cur)
    }
}

/// The tokens joined back into one text, with a single space between
/// neighbours.
pub open spec fn join_spaces(ts: Seq<Seq<char>>) -> Seq<char>
    decreases ts.len(),
{
    if ts.len() == 0 {
        Seq::empty()
    } else if ts.len() == 1 {
        ts[0]
    } else {
        join_spaces(ts.drop_last()) + seq![' '] + ts.last()
    }
}

/// Split `s` at ASCII whitespace into its tokens.
pub(crate) fn split_tokens(s: &str) -> (r: Vec<String>)
    ensures
        r.deep_view() == tokens_of(s@),
{
    let n = s.unicode_len();
    let mut done: Vec<String> = Vec::new();
    let mut start: usize = 0;
    let mut i: usize = 0;
    proof {
        assert(done.deep_view() =~= Seq::<Seq<char>>::empty());
        assert(s@.take(0) =~= Seq::<char>::empty());
        assert(s@.subrange(0, 0) =~= Seq::<char>::empty());
    }
    while i < n
        invariant
            n == s@.len(),
            start <= i <= n,
            scan_tokens(s@.take(i as int)) == (done.deep_view(), s@.subrange(
                start as int,
                i as int,
            )),
        decreases n - i,
    {
        let c = s.get_char(i);
        proof {
            assert(s@.take(i as int + 1).drop_last() =~= s@.take(i as int));
            assert(s@.take(i as int + 1).last() == s@[i as int]);
        }
        if is_space_char(c) {
            if start < i {
                let tok = s.substring_char(start, i).to_owned();
                let ghost prev = done.deep_view();
                done.push(tok);
                proof {
                    assert(done.deep_view() =~= prev.push(s@.subrange(start as int, i as int)));
                }
            }
            start = i + 1;
            proof {
                assert(s@.subrange(start as int, i as int + 1) =~= Seq::<char>::empty());
            }
        } else {
            proof {
                assert(s@.subrange(start as int, i as int + 1) =~= s@.subrange(
                    start as int,
                    i as int,
                ).push(s@[i as int]));
            }
        }
        i = i + 1;
    }
    proof {
        assert(s@.take(n as int) =~= s@);
    }
    if start < n {
        let tok = s.substring_char(start, n).to_owned();
        let ghost prev = done.deep_view();
        done.push(tok);
        proof {
            assert(done.deep_view() =~= prev.push(s@.subrange(start as int, n as int)));
        }
    }
    done
}

/// Join the tokens with a single space between neighbours.
pub(crate) fn join_with_spaces(ts: &Vec<String>) -> (r: String)
    ensures
        r@ == join_spaces(ts.deep_view()),
{
    let mut r = String::new();
    let mut i: usize = 0;
    proof {
        assert(r@ =~= join_spaces(ts.deep_view().take(0)));
    }
    while i < ts.len()
        invariant
            i <= ts.len(),
            r@ == join_spaces(ts.deep_view().take(i as int)),
        decreases ts.len() - i,
    {
        proof {
            assert(ts.deep_view().take(i as int + 1).drop_last() =~= ts.deep_view().take(
                i as int,
            ));
            assert(ts.deep_view().take(i as int + 1).last() == ts.deep_view()[i as int]);
        }
        if i != 0 {
            r.append(" ");
            proof {
                reveal_strlit(" ");
                assert(" "@ =~= seq![' ']);
            }
        }
        r.append(ts[i].as_str());
        i = i + 1;
    }
    proof {
        assert(ts.deep_view().take(ts.deep_view().len() as int) =~= ts.deep_view());
    }
    r
}

} // verus!
