use vstd::prelude::*;
use crate::grammar::{
    all_digits, digits_value, find_crlf, int_of_word, signed_value, crlf_at, parse_int_line, parse_value, parse_items, is_digit, trim_end, trim_start, Parsed, ParsedSeq,
};
use crate::types::{RedisValue, Val};

verus! {

broadcast use vstd::seq::group_seq_axioms;

/// Outcome of parsing one value out of a byte slice.
pub enum Outcome {
    /// The value, and the index just past its last byte.
    Done(RedisValue, usize),
    /// More bytes are needed.
    Partial,
    /// The bytes break the grammar.
    Bad,
}

/// `r` is the executable form of the parse result `p`.
pub open spec fn outcome_is(r: Outcome, p: Parsed) -> bool {
    match r {
        Outcome::Done(v, q) => p == Parsed::Done(v@, q as int),
        Outcome::Partial => p == Parsed::Partial,
        Outcome::Bad => p == Parsed::Bad,
    }
}

/// The models of a sequence of values.
pub open spec fn views(a: Seq<RedisValue>) -> Seq<Val> {
    Seq::new(a.len(), |i: int| a[i]@)
}

/// `vs` put in front of the elements that `rest` found.
pub open spec fn glue(vs: Seq<Val>, rest: ParsedSeq) -> ParsedSeq {
    match rest {
        ParsedSeq::Done(ws, r) => ParsedSeq::Done(vs + ws, r),
        other => other,
    }
}

/// Index of the first CR LF pair of `buf` at or after `i`.
pub fn find_crlf_from(buf: &[u8], i: usize) -> (r: Option<usize>)
    ensures
        match r {
            Some(e) => find_crlf(buf@, i as int) == e as int,
            None => find_crlf(buf@, i as int) == -1,
        },
{
    if buf.len() < 2 {
        return None;
    }
    let mut k: usize = i;
    while k < buf.len() - 1
        invariant
            i <= k,
            buf.len() >= 2,
            find_crlf(buf@, i as int) == find_crlf(buf@, k as int),
        decreases buf.len() - k,
    {
        if buf[k] == 13 && buf[k + 1] == 10 {
            return Some(k);
        }
        k = k + 1;
    }
    None
}

proof fn lemma_digits_nonneg(d: Seq<u8>)
    requires
        all_digits(d),
    ensures
        digits_value(d) >= 0,
    decreases d.len(),
{
    if d.len() > 0 {
        lemma_digits_nonneg(d.drop_last());
    }
}

/// A prefix of a run of digits spells no larger a number than the whole run.
proof fn lemma_digits_prefix(d: Seq<u8>, k: int)
    requires
        all_digits(d),
        0 <= k <= d.len(),
    ensures
        digits_value(d.subrange(0, k)) <= digits_value(d),
    decreases d.len(),
{
    if k < d.len() {
        lemma_digits_prefix(d.drop_last(), k);
        assert(d.drop_last().subrange(0, k) =~= d.subrange(0, k));
        lemma_digits_nonneg(d.drop_last());
    } else {
        assert(d.subrange(0, k) =~= d);
    }
}

/// The integer held by the word `buf[lo..hi]`.
pub fn parse_int_word(buf: &[u8], lo: usize, hi: usize) -> (r: Option<i64>)
    requires
        lo <= hi <= buf.len(),
    ensures
        match r {
            Some(n) => int_of_word(buf@.subrange(lo as int, hi as int)) == Some(n as int),
            None => int_of_word(buf@.subrange(lo as int, hi as int)) is None,
        },
{
    let ghost s = buf@;
    let ghost w = s.subrange(lo as int, hi as int);
    let mut a: usize = lo;
    while a < hi && (buf[a] == 32 || (9 <= buf[a] && buf[a] <= 13))
        invariant
            lo <= a <= hi <= buf.len(),
            s == buf@,
            trim_start(w) == trim_start(s.subrange(a as int, hi as int)),
        decreases hi - a,
    {
        assert(s.subrange(a as int, hi as int).subrange(1, hi - a) =~= s.subrange(a + 1, hi as int));
        a = a + 1;
    }
    let mut b: usize = hi;
    while b > a && (buf[b - 1] == 32 || (9 <= buf[b - 1] && buf[b - 1] <= 13))
        invariant
            lo <= a <= b <= hi <= buf.len(),
            s == buf@,
            trim_start(w) == s.subrange(a as int, hi as int),
            trim_end(trim_start(w)) == trim_end(s.subrange(a as int, b as int)),
        decreases b - a,
    {
        assert(s.subrange(a as int, b as int).drop_last() =~= s.subrange(a as int, b - 1));
        b = b - 1;
    }
    let ghost t = s.subrange(a as int, b as int);
    assert(trim_end(trim_start(w)) == t);
    let mut neg = false;
    let mut d: usize = a;
    let ghost signed = a < b && (buf[a as int] == 45 || buf[a as int] == 43);
    if a < b && (buf[a] == 45 || buf[a] == 43) {
        neg = buf[a] == 45;
        d = a + 1;
        assert(t.subrange(1, t.len() as int) =~= s.subrange(d as int, b as int));
    } else {
        assert(t =~= s.subrange(d as int, b as int));
    }
    if d >= b {
        return None;
    }
    let ghost ds = s.subrange(d as int, b as int);
    let mut acc: u128 = 0;
    let mut k: usize = d;
    while k < b
        invariant
            a <= d <= k <= b <= buf.len(),
            s == buf@,
            ds == s.subrange(d as int, b as int),
            signed ==> t.len() > 0 && (t[0] == 45 || t[0] == 43) && t.subrange(1, t.len() as int) == ds,
            !signed ==> t == ds && !(t.len() > 0 && (t[0] == 45 || t[0] == 43)),
            neg <==> signed && t[0] == 45,
            trim_end(trim_start(w)) == t,
            w == s.subrange(lo as int, hi as int),
            acc as int == digits_value(s.subrange(d as int, k as int)),
            acc <= 9223372036854775808u128,
            all_digits(s.subrange(d as int, k as int)),
        decreases b - k,
    {
        let c = buf[k];
        if c < 48 || c > 57 {
            assert(ds[k - d] == c);
            assert(!is_digit(ds[k - d]));
            assert(!all_digits(ds));
            assert(signed_value(t) is None);
            return None;
        }
        let ghost pre = s.subrange(d as int, k as int);
        let ghost next = s.subrange(d as int, k + 1);
        assert(next.drop_last() =~= pre);
        acc = acc * 10 + (c - 48) as u128;
        assert(all_digits(next)) by {
            assert forall|j: int| 0 <= j < next.len() implies is_digit(#[trigger] next[j]) by {
                if j < pre.len() {
                    assert(next[j] == pre[j]);
                }
            }
        }
        if acc > 9223372036854775808u128 {
            proof {
                assert(!all_digits(ds) || digits_value(ds) > 9223372036854775808) by {
                    if all_digits(ds) {
                        lemma_digits_prefix(ds, k + 1 - d);
                        assert(ds.subrange(0, k + 1 - d) =~= next);
                    }
                }
            }
            assert(signed_value(t) is None || signed_value(t) == Some(digits_value(ds)) || signed_value(t) == Some(-digits_value(ds)));
            return None;
        }
        k = k + 1;
    }
    assert(s.subrange(d as int, k as int) =~= ds);
    if neg {
        Some((0i128 - acc as i128) as i64)
    } else if acc <= 9223372036854775807u128 {
        Some(acc as i64)
    } else {
        None
    }
}

/// A CR LF pair found at or after `i` lies at or after `i`.
pub proof fn lemma_find_crlf(s: Seq<u8>, i: int)
    ensures
        find_crlf(s, i) == -1 || (i <= find_crlf(s, i) && crlf_at(s, find_crlf(s, i))),
    decreases s.len() - i,
{
    if !(i < 0 || i + 1 >= s.len()) && !crlf_at(s, i) {
        lemma_find_crlf(s, i + 1);
    }
}

/// A value parsed at `p` ends after `p` and within the buffer.
pub proof fn lemma_value_bounds(s: Seq<u8>, p: int)
    ensures
        parse_value(s, p) is Done ==> p < parse_value(s, p)->Done_1 <= s.len(),
    decreases s.len() - p, 0int,
{
    if 0 <= p < s.len() {
        lemma_find_crlf(s, p + 1);
        if let Parsed::Done(Val::Int(n), q) = parse_int_line(s, p + 1) {
            if n >= 0 && s[p] == 42 && q > p && q <= s.len() {
                lemma_items_bounds(s, q, n);
            }
        }
    }
}

/// Elements parsed at `p` end at or after `p` and within the buffer.
pub proof fn lemma_items_bounds(s: Seq<u8>, p: int, n: int)
    ensures
        parse_items(s, p, n) is Done ==> p <= parse_items(s, p, n)->Done_1 <= s.len(),
    decreases s.len() - p, 1int,
{
    if 0 <= p <= s.len() && n > 0 {
        lemma_value_bounds(s, p);
        if let Parsed::Done(v, q) = parse_value(s, p) {
            if q > p && q <= s.len() {
                lemma_items_bounds(s, q, n - 1);
            }
        }
    }
}

/// A copy of `buf[lo..hi]`.
pub fn copy_range(buf: &[u8], lo: usize, hi: usize) -> (r: Vec<u8>)
    requires
        lo <= hi <= buf.len(),
    ensures
        r@ == buf@.subrange(lo as int, hi as int),
{
    let mut out: Vec<u8> = Vec::new();
    let mut k: usize = lo;
    while k < hi
        invariant
            lo <= k <= hi <= buf.len(),
            out@ == buf@.subrange(lo as int, k as int),
        decreases hi - k,
    {
        out.push(buf[k]);
        k = k + 1;
        assert(out@ =~= buf@.subrange(lo as int, k as int));
    }
    out
}

/// The integer word that starts at `p`, with its terminator.
pub fn parse_int_line_at(buf: &[u8], p: usize) -> (r: Outcome)
    ensures
        outcome_is(r, parse_int_line(buf@, p as int)),
{
    proof {
        lemma_find_crlf(buf@, p as int);
    }
    match find_crlf_from(buf, p) {
        None => Outcome::Partial,
        Some(e) => match parse_int_word(buf, p, e) {
            Some(n) if e < buf.len() - 1 => Outcome::Done(RedisValue::Int(n), e + 2),
            _ => Outcome::Bad,
        },
    }
}

/// The value that starts at index `p` of `buf`; nested arrays are read by
/// recursion, one level per nesting.
pub fn parse_value_at(buf: &[u8], p: usize) -> (r: Outcome)
    ensures
        outcome_is(r, parse_value(buf@, p as int)),
    decreases buf.len() - p,
{
    let ghost s = buf@;
    if p >= buf.len() {
        return Outcome::Partial;
    }
    let tag = buf[p];
    if tag == 43 || tag == 45 {
        proof {
            lemma_find_crlf(s, p + 1);
        }
        match find_crlf_from(buf, p + 1) {
            None => Outcome::Partial,
            Some(e) => {
                let w = copy_range(buf, p + 1, e);
                let v = if tag == 43 {
                    RedisValue::SimpleString(w)
                } else {
                    RedisValue::Error(w)
                };
                Outcome::Done(v, e + 2)
            },
        }
    } else if tag == 58 {
        parse_int_line_at(buf, p + 1)
    } else if tag == 36 || tag == 42 {
        proof {
            lemma_find_crlf(s, p + 1);
        }
        match parse_int_line_at(buf, p + 1) {
            Outcome::Done(RedisValue::Int(n), q) => {
                if n < 0 {
                    if tag == 36 {
                        Outcome::Done(RedisValue::NullBulkString, q)
                    } else {
                        Outcome::Done(RedisValue::NullArray, q)
                    }
                } else if tag == 36 {
                    let rem: usize = buf.len() - q;
                    if (n as u64) > (rem as u64) || (rem as u64) - (n as u64) < 2 {
                        Outcome::Partial
                    } else {
                        let m = n as usize;
                        if buf[q + m] == 13 && buf[q + m + 1] == 10 {
                            Outcome::Done(RedisValue::BulkString(copy_range(buf, q, q + m)), q + m + 2)
                        } else {
                            Outcome::Bad
                        }
                    }
                } else {
                    parse_array_items(buf, p, q, n)
                }
            },
            Outcome::Partial => Outcome::Partial,
            _ => Outcome::Bad,
        }
    } else {
        Outcome::Bad
    }
}

/// The `n` elements of the array whose header at `p` ends at `q`.
fn parse_array_items(buf: &[u8], p: usize, q: usize, n: i64) -> (r: Outcome)
    requires
        p < q <= buf.len(),
        n >= 0,
    ensures
        outcome_is(
            r,
            match parse_items(buf@, q as int, n as int) {
                ParsedSeq::Done(vs, e) => Parsed::Done(Val::Array(vs), e),
                ParsedSeq::Partial => Parsed::Partial,
                ParsedSeq::Bad => Parsed::Bad,
            },
        ),
    decreases buf.len() - p, 1int,
{
    let ghost s = buf@;
    let mut out: Vec<RedisValue> = Vec::new();
    let mut pos: usize = q;
    let mut k: i64 = 0;
    while k < n
        invariant
            s == buf@,
            p < q <= pos <= buf.len(),
            0 <= k <= n,
            parse_items(s, q as int, n as int) == glue(views(out@), parse_items(s, pos as int, n - k)),
        decreases buf.len() - pos,
    {
        proof {
            lemma_value_bounds(s, pos as int);
        }
        match parse_value_at(buf, pos) {
            Outcome::Done(v, e) => {
                proof {
                    let rest = parse_items(s, e as int, n - k - 1);
                    assert(parse_items(s, pos as int, n - k) == glue(seq![v@], rest));
                    assert(views(out@.push(v)) =~= views(out@) + seq![v@]);
                    match rest {
                        ParsedSeq::Done(ws, r) => {
                            assert(views(out@) + (seq![v@] + ws) =~= views(out@) + seq![v@] + ws);
                        },
                        _ => {},
                    }
                }
                out.push(v);
                pos = e;
                k = k + 1;
            },
            Outcome::Partial => {
                return Outcome::Partial;
            },
            Outcome::Bad => {
                return Outcome::Bad;
            },
        }
    }
    assert(views(out@) + seq![] =~= views(out@));
    let r = RedisValue::Array(out);
    assert(r@ == Val::Array(views(out@))) by {
        assert(r@->Array_0 =~= views(out@));
    }
    Outcome::Done(r, pos)
}

} // verus!
