use vstd::prelude::*;
use crate::grammar::{parse_int_line, parse_items, parse_value, Parsed, ParsedSeq};
use crate::laws::{lemma_int_line_extend, lemma_int_line_shrink, lemma_value_extend, lemma_value_shrink};
use crate::parse::{glue, lemma_find_crlf, lemma_value_bounds, views};
use crate::types::{RedisValue, Val};

verus! {

broadcast use vstd::seq::group_seq_axioms;

/// An array whose elements are being read: how many elements are still to
/// come (the one in progress included), and the elements read so far.
pub struct Frame {
    pub remaining: i64,
    pub items: Vec<RedisValue>,
}

/// `t` starts with the bytes `c`.
pub open spec fn extends(c: Seq<u8>, t: Seq<u8>) -> bool {
    c.len() <= t.len() && c == t.subrange(0, c.len() as int)
}

/// The array made of `vs` followed by the elements that `r` found.
pub open spec fn mk_array(vs: Seq<Val>, r: ParsedSeq) -> Parsed {
    match r {
        ParsedSeq::Done(ws, e) => Parsed::Done(Val::Array(vs + ws), e),
        ParsedSeq::Partial => Parsed::Partial,
        ParsedSeq::Bad => Parsed::Bad,
    }
}

/// The elements of an array from one element on, given how that element
/// parsed and how many elements, it included, were still to come.
pub open spec fn after_elem(s: Seq<u8>, a: Parsed, m: int) -> ParsedSeq {
    match a {
        Parsed::Done(v, e) => glue(seq![v], parse_items(s, e, m - 1)),
        Parsed::Partial => ParsedSeq::Partial,
        Parsed::Bad => ParsedSeq::Bad,
    }
}

/// The outermost value, given the stack of arrays in progress `f`
/// (outermost first) and what the innermost one's remaining elements gave.
pub open spec fn close(s: Seq<u8>, f: Seq<Frame>, r: ParsedSeq) -> Parsed
    decreases f.len(),
{
    if f.len() == 0 {
        Parsed::Bad
    } else if f.len() == 1 {
        mk_array(views(f.last().items@), r)
    } else {
        close(
            s,
            f.drop_last(),
            after_elem(s, mk_array(views(f.last().items@), r), f[f.len() - 2].remaining as int),
        )
    }
}

/// Undecided or broken innermost elements leave the outermost value
/// undecided or broken.
pub proof fn lemma_close_undecided(s: Seq<u8>, f: Seq<Frame>, r: ParsedSeq)
    requires
        f.len() >= 1,
        !(r is Done),
    ensures
        r is Partial ==> close(s, f, r) is Partial,
        r is Bad ==> close(s, f, r) is Bad,
    decreases f.len(),
{
    if f.len() > 1 {
        lemma_close_undecided(
            s,
            f.drop_last(),
            after_elem(s, mk_array(views(f.last().items@), r), f[f.len() - 2].remaining as int),
        );
    }
}

/// Moving a finished element into the innermost frame keeps the outermost value.
pub proof fn lemma_close_push(s: Seq<u8>, f: Seq<Frame>, g: Seq<Frame>, v: Val, x: ParsedSeq)
    requires
        f.len() >= 1,
        g.len() == f.len(),
        g.drop_last() == f.drop_last(),
        views(g.last().items@) == views(f.last().items@).push(v),
    ensures
        close(s, f, glue(seq![v], x)) == close(s, g, x),
{
    let vs = views(f.last().items@);
    if let ParsedSeq::Done(ws, e) = x {
        assert(vs + (seq![v] + ws) =~= vs.push(v) + ws);
    }
    assert(mk_array(vs, glue(seq![v], x)) == mk_array(views(g.last().items@), x));
    if f.len() > 1 {
        assert(g[g.len() - 2] == g.drop_last()[g.len() - 2]);
        assert(f[f.len() - 2] == f.drop_last()[f.len() - 2]);
    }
}

/// Opening an array inside the innermost frame keeps the outermost value.
pub proof fn lemma_close_open(s: Seq<u8>, f: Seq<Frame>, g: Seq<Frame>, x: ParsedSeq)
    requires
        f.len() >= 1,
        g.len() == f.len() + 1,
        g.drop_last() == f,
        g.last().items@.len() == 0,
    ensures
        close(s, g, x) == close(s, f, after_elem(s, mk_array(seq![], x), f.last().remaining as int)),
{
    assert(views(g.last().items@) =~= Seq::<Val>::empty());
    assert(g[g.len() - 2] == f.last());
}

/// The elements from `p` on: the element at `p`, then the rest.
pub proof fn lemma_items_step(s: Seq<u8>, p: int, n: int)
    requires
        0 <= p <= s.len(),
        n > 0,
    ensures
        parse_items(s, p, n) == after_elem(s, parse_value(s, p), n),
{
    lemma_value_bounds(s, p);
}

/// A value read in `s` is read the same in any buffer that starts with the
/// bytes of `s` up to its end.
pub proof fn lemma_value_transfer(s: Seq<u8>, t: Seq<u8>, p: int)
    requires
        0 <= p,
        parse_value(s, p) is Done,
        extends(s.subrange(0, parse_value(s, p)->Done_1), t),
    ensures
        parse_value(t, p) == parse_value(s, p),
        parse_value(s, p)->Done_1 <= t.len(),
{
    lemma_value_bounds(s, p);
    let c = s.subrange(0, parse_value(s, p)->Done_1);
    assert(c == s.subrange(0, c.len() as int));
    lemma_value_shrink(c, s, p);
    lemma_value_extend(c, t, p);
}

/// An array header read in `s` is read the same in any buffer that starts
/// with the bytes of `s` up to the header's end.
pub proof fn lemma_header_transfer(s: Seq<u8>, t: Seq<u8>, p: int, k: int, q: int)
    requires
        0 <= p < s.len(),
        s[p] == 42,
        parse_int_line(s, p + 1) == Parsed::Done(Val::Int(k), q),
        k >= 0,
        extends(s.subrange(0, q), t),
    ensures
        p < q <= s.len(),
        q <= t.len(),
        parse_value(s, p) == mk_array(seq![], parse_items(s, q, k)),
        parse_value(t, p) == mk_array(seq![], parse_items(t, q, k)),
{
    lemma_find_crlf(s, p + 1);
    let c = s.subrange(0, q);
    assert(c == s.subrange(0, c.len() as int));
    lemma_int_line_shrink(c, s, p + 1);
    lemma_int_line_extend(c, t, p + 1);
    assert(t[p] == c[p]);
    if let ParsedSeq::Done(vs, e) = parse_items(s, q, k) {
        assert(seq![] + vs =~= vs);
    }
    if let ParsedSeq::Done(vs, e) = parse_items(t, q, k) {
        assert(seq![] + vs =~= vs);
    }
}

} // verus!
