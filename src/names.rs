use crate::codec::{chars_of, string_of};
use vstd::prelude::*;

verus! {

/// Whether `c` is white space in the Unicode sense.
pub uninterp spec fn is_white(c: char) -> bool;

/// Relies on `char::is_whitespace`, which depends on the character alone.
#[verifier::external_body]
fn white_space(c: char) -> (r: bool)
    ensures
        r == is_white(c),
{
    c.is_whitespace()
}

/// `p` without its leading white space.
pub open spec fn trim_start(p: Seq<char>) -> Seq<char>
    decreases p.len(),
{
    if p.len() > 0 && is_white(p[0]) {
        trim_start(p.drop_first())
    } else {
        p
    }
}

/// `p` without its trailing white space.
pub open spec fn trim_end(p: Seq<char>) -> Seq<char>
    decreases p.len(),
{
    if p.len() > 0 && is_white(p.last()) {
        trim_end(p.drop_last())
    } else {
        p
    }
}

pub open spec fn trimmed(p: Seq<char>) -> Seq<char> {
    trim_end(trim_start(p))
}

/// The pieces of `s` before its last comma, each ended by a comma.
pub open spec fn split_done(s: Seq<char>) -> Seq<Seq<char>>
    decreases s.len(),
{
    if s.len() == 0 {
        Seq::empty()
    } else if s.last() == ',' {
        split_done(s.drop_last()).push(split_rest(s.drop_last()))
    } else {
        split_done(s.drop_last())
    }
}

/// The piece of `s` after its last comma.
pub open spec fn split_rest(s: Seq<char>) -> Seq<char>
    decreases s.len(),
{
    if s.len() == 0 {
        Seq::empty()
    } else if s.last() == ',' {
        Seq::empty()
    } else {
        split_rest(s.drop_last()).push(s.last())
    }
}

/// The pieces of `s` between commas.
pub open spec fn comma_pieces(s: Seq<char>) -> Seq<Seq<char>> {
    split_done(s).push(split_rest(s))
}

/// The pieces, trimmed, without those left empty.
pub open spec fn kept_pieces(ps: Seq<Seq<char>>) -> Seq<Seq<char>>
    decreases ps.len(),
{
    if ps.len() == 0 {
        Seq::empty()
    } else if trimmed(ps.last()).len() > 0 {
        kept_pieces(ps.drop_last()).push(trimmed(ps.last()))
    } else {
        kept_pieces(ps.drop_last())
    }
}

/// The member names that a comma-separated list gives.
pub open spec fn member_names(s: Seq<char>) -> Seq<Seq<char>> {
    kept_pieces(comma_pieces(s))
}

pub open spec fn strings_view(v: Seq<String>) -> Seq<Seq<char>> {
    v.map_values(|x: String| x@)
}

fn trim_chars(p: &Vec<char>) -> (r: Vec<char>)
    ensures
        r@ == trimmed(p@),
{
    let mut a: usize = 0;
    assert(p@.subrange(0, p@.len() as int) == p@);
    while a < p.len() && white_space(p[a])
        invariant
            a <= p.len(),
            trim_start(p@) == trim_start(p@.subrange(a as int, p@.len() as int)),
        decreases p.len() - a,
    {
        assert(p@.subrange(a as int, p@.len() as int).drop_first() == p@.subrange(
            a + 1,
            p@.len() as int,
        ));
        a = a + 1;
    }
    let ghost q = p@.subrange(a as int, p@.len() as int);
    assert(trim_start(p@) == q);
    let mut b: usize = p.len();
    while b > a && white_space(p[b - 1])
        invariant
            a <= b <= p.len(),
            q == p@.subrange(a as int, p@.len() as int),
            trim_end(q) == trim_end(p@.subrange(a as int, b as int)),
        decreases b,
    {
        assert(p@.subrange(a as int, b as int).drop_last() == p@.subrange(a as int, b - 1));
        b = b - 1;
    }
    let mut out: Vec<char> = Vec::new();
    let mut k: usize = a;
    while k < b
        invariant
            a <= k <= b,
            b <= p.len(),
            out@ == p@.subrange(a as int, k as int),
        decreases b - k,
    {
        out.push(p[k]);
        k = k + 1;
        assert(out@ =~= p@.subrange(a as int, k as int));
    }
    out
}

/// The member names in a comma-separated list: each piece between commas,
/// without its surrounding white space, and without the pieces left empty.
pub fn split_members_arg(s: &str) -> (r: Vec<String>)
    ensures
        strings_view(r@) == member_names(s@),
{
    let chars = chars_of(s);
    let mut out: Vec<String> = Vec::new();
    let mut cur: Vec<char> = Vec::new();
    let mut i: usize = 0;
    while i < chars.len()
        invariant
            i <= chars.len(),
            chars@ == s@,
            strings_view(out@) == kept_pieces(split_done(chars@.take(i as int))),
            cur@ == split_rest(chars@.take(i as int)),
        decreases chars.len() - i,
    {
        let c = chars[i];
        let ghost t = chars@.take(i + 1);
        assert(t.drop_last() == chars@.take(i as int));
        if c == ',' {
            let piece = trim_chars(&cur);
            if piece.len() > 0 {
                let ghost before = out@;
                out.push(string_of(&piece));
                assert(strings_view(out@) =~= strings_view(before).push(piece@));
            }
            assert(split_done(t) == split_done(chars@.take(i as int)).push(cur@));
            assert(split_done(t).drop_last() == split_done(chars@.take(i as int)));
            cur = Vec::new();
        } else {
            cur.push(c);
        }
        i = i + 1;
    }
    assert(chars@.take(i as int) == chars@);
    let piece = trim_chars(&cur);
    let ghost ps = comma_pieces(chars@);
    assert(ps.drop_last() == split_done(chars@));
    if piece.len() > 0 {
        let ghost before = out@;
        out.push(string_of(&piece));
        assert(strings_view(out@) =~= strings_view(before).push(piece@));
    }
    out
}

} // verus!
