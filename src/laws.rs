use vstd::prelude::*;
use crate::grammar::{
    all_digits, crlf, crlf_at, decimal, digits_of, digits_value, encode, encode_all, find_crlf,
    int_of_word, no_crlf, parse_int_line, parse_items, parse_value, signed_value, trim_end,
    trim_start, well_formed, Parsed, ParsedSeq,
};
use crate::parse::{lemma_find_crlf, lemma_items_bounds, lemma_value_bounds};
use crate::asyncresp::{decoded, R02Error};
use crate::types::{RedisValue, Val};

verus! {

broadcast use vstd::seq::group_seq_axioms;

/// The first CR LF pair at or after `i` is the one at `e` when none lies in between.
proof fn lemma_find_at(s: Seq<u8>, i: int, e: int)
    requires
        0 <= i <= e,
        crlf_at(s, e),
        forall|j: int| i <= j < e ==> !crlf_at(s, j),
    ensures
        find_crlf(s, i) == e,
    decreases e - i,
{
    if i < e {
        lemma_find_at(s, i + 1, e);
    }
}

/// The digits of `m` are digits, at least one, and spell `m`.
proof fn lemma_digits_of(m: nat)
    ensures
        digits_of(m).len() > 0,
        all_digits(digits_of(m)),
        digits_value(digits_of(m)) == m,
    decreases m,
{
    let d = digits_of(m);
    if m < 10 {
        assert(d.drop_last() =~= Seq::<u8>::empty());
        assert(digits_value(d) == digits_value(d.drop_last()) * 10 + (d.last() - 48));
    } else {
        lemma_digits_of(m / 10);
        assert(d.drop_last() =~= digits_of(m / 10));
        assert(d.last() == (48 + m % 10) as u8);
        assert(digits_value(d) == digits_value(d.drop_last()) * 10 + (d.last() - 48));
        assert(m == (m / 10) * 10 + m % 10);
        assert(all_digits(d)) by {
            assert forall|i: int| 0 <= i < d.len() implies crate::grammar::is_digit(#[trigger] d[i]) by {
                if i < d.len() - 1 {
                    assert(d[i] == digits_of(m / 10)[i]);
                }
            }
        }
    }
}

/// The decimal form of an `i64` is read back as that integer, and holds no CR.
proof fn lemma_decimal_word(n: int)
    requires
        i64::MIN <= n <= i64::MAX,
    ensures
        int_of_word(decimal(n)) == Some(n),
        forall|j: int| 0 <= j < decimal(n).len() ==> #[trigger] decimal(n)[j] != 13,
        decimal(n).len() > 0,
{
    let w = decimal(n);
    if n < 0 {
        lemma_digits_of((-n) as nat);
        let d = digits_of((-n) as nat);
        assert(w.subrange(1, w.len() as int) =~= d);
        assert(w.last() == d.last());
        assert forall|j: int| 0 <= j < w.len() implies #[trigger] w[j] != 13 by {
            if j > 0 {
                assert(w[j] == d[j - 1]);
            }
        }
    } else {
        lemma_digits_of(n as nat);
    }
    assert(trim_start(w) == w);
    assert(trim_end(w) == w);
}

/// A header line `decimal(n)` CR LF at `q` is read as the integer `n`.
proof fn lemma_int_line(s: Seq<u8>, q: int, n: int)
    requires
        i64::MIN <= n <= i64::MAX,
        0 <= q,
        q + decimal(n).len() + 2 <= s.len(),
        s.subrange(q, q + decimal(n).len() + 2) == decimal(n) + crlf(),
    ensures
        parse_int_line(s, q) == Parsed::Done(Val::Int(n), q + decimal(n).len() + 2),
{
    lemma_decimal_word(n);
    let dl = decimal(n).len() as int;
    let e = q + dl;
    let line = s.subrange(q, q + dl + 2);
    assert(s[e] == line[dl]);
    assert(s[e + 1] == line[dl + 1]);
    assert forall|j: int| q <= j < e implies !crlf_at(s, j) by {
        assert(s[j] == line[j - q]);
    }
    lemma_find_at(s, q, e);
    assert(s.subrange(q, e) =~= decimal(n));
}

/// A piece of `m`, where `m` stands at `p` in `s`, stands at the matching place.
proof fn lemma_piece(s: Seq<u8>, p: int, m: Seq<u8>, a: int, b: int)
    requires
        0 <= p,
        p + m.len() <= s.len(),
        s.subrange(p, p + m.len()) == m,
        0 <= a <= b <= m.len(),
    ensures
        s.subrange(p + a, p + b) == m.subrange(a, b),
{
    assert forall|j: int| 0 <= j < b - a implies #[trigger] s.subrange(p + a, p + b)[j] == m.subrange(a, b)[j] by {
        assert(s[p + a + j] == s.subrange(p, p + m.len())[a + j]);
    }
    assert(s.subrange(p + a, p + b) =~= m.subrange(a, b));
}

/// A simple string or an error, found at `p`, parses back to itself.
proof fn lemma_parse_word(s: Seq<u8>, p: int, v: Val)
    requires
        v is Simple || v is Error,
        well_formed(v),
        0 <= p,
        p + encode(v).len() <= s.len(),
        s.subrange(p, p + encode(v).len()) == encode(v),
    ensures
        parse_value(s, p) == Parsed::Done(v, p + encode(v).len()),
{
    let m = encode(v);
    let b = if v is Simple { v->Simple_0 } else { v->Error_0 };
    assert(m == seq![m[0]] + b + crlf());
    assert(s[p] == s.subrange(p, p + m.len())[0]);
    let e = p + 1 + b.len();
    assert(s[e] == s.subrange(p, p + m.len())[e - p]);
    assert(s[e + 1] == s.subrange(p, p + m.len())[e + 1 - p]);
    assert forall|j: int| p + 1 <= j < e implies !crlf_at(s, j) by {
        assert(s[j] == s.subrange(p, p + m.len())[j - p]);
        assert(s[j + 1] == s.subrange(p, p + m.len())[j + 1 - p]);
        if j + 1 < e {
            assert(b[j - p - 1] == m[j - p]);
            assert(b[j - p] == m[j + 1 - p]);
        }
    }
    lemma_find_at(s, p + 1, e);
    lemma_piece(s, p, m, 1, 1 + b.len() as int);
    assert(m.subrange(1, 1 + b.len() as int) =~= b);
}

/// A bulk string, found at `p`, parses back to itself.
proof fn lemma_parse_bulk(s: Seq<u8>, p: int, v: Val)
    requires
        v is Bulk,
        well_formed(v),
        0 <= p,
        p + encode(v).len() <= s.len(),
        s.subrange(p, p + encode(v).len()) == encode(v),
    ensures
        parse_value(s, p) == Parsed::Done(v, p + encode(v).len()),
{
    let m = encode(v);
    let b = v->Bulk_0;
    let n = b.len() as int;
    let dl = decimal(n).len() as int;
    assert(s[p] == s.subrange(p, p + m.len())[0]);
    lemma_piece(s, p, m, 1, 1 + dl + 2);
    assert(m.subrange(1, 1 + dl + 2) =~= decimal(n) + crlf());
    lemma_int_line(s, p + 1, n);
    let q = p + 1 + dl + 2;
    assert(s[q + n] == s.subrange(p, p + m.len())[q + n - p]);
    assert(s[q + n + 1] == s.subrange(p, p + m.len())[q + n + 1 - p]);
    lemma_piece(s, p, m, q - p, q - p + n);
    assert(m.subrange(q - p, q - p + n) =~= b);
}

/// The wire form of a well-formed value, found at `p`, parses back to the value.
pub proof fn lemma_parse_encoded(s: Seq<u8>, p: int, v: Val)
    requires
        well_formed(v),
        0 <= p,
        p + encode(v).len() <= s.len(),
        s.subrange(p, p + encode(v).len()) == encode(v),
    ensures
        parse_value(s, p) == Parsed::Done(v, p + encode(v).len()),
    decreases v,
{
    let m = encode(v);
    let l = m.len() as int;
    assert(s[p] == s.subrange(p, p + m.len())[0]);
    match v {
        Val::Simple(b) => {
            lemma_parse_word(s, p, v);
        },
        Val::Error(b) => {
            lemma_parse_word(s, p, v);
        },
        Val::Bulk(b) => {
            lemma_parse_bulk(s, p, v);
        },
        Val::Int(n) => {
            let dl = decimal(n).len() as int;
            lemma_piece(s, p, m, 1, 1 + dl + 2);
            assert(m.subrange(1, 1 + dl + 2) =~= decimal(n) + crlf());
            lemma_int_line(s, p + 1, n);
        },
        Val::NullBulk => {
            assert(digits_of(1) == seq![49u8]);
            assert(decimal(-1) =~= seq![45u8, 49u8]);
            lemma_piece(s, p, m, 1, 5);
            assert(m.subrange(1, 5) =~= decimal(-1) + crlf());
            lemma_int_line(s, p + 1, -1);
        },
        Val::Array(vs) => {
            let n = vs.len() as int;
            let dl = decimal(n).len() as int;
            lemma_piece(s, p, m, 1, 1 + dl + 2);
            assert(m.subrange(1, 1 + dl + 2) =~= decimal(n) + crlf());
            lemma_int_line(s, p + 1, n);
            let q = p + 1 + dl + 2;
            lemma_piece(s, p, m, q - p, l);
            assert(m.subrange(q - p, l) =~= encode_all(vs));
            assert(decreases_to!(v => v->Array_0));
            lemma_parse_encoded_all(s, q, vs);
        },
        Val::NullArray => {
            assert(digits_of(1) == seq![49u8]);
            assert(decimal(-1) =~= seq![45u8, 49u8]);
            lemma_piece(s, p, m, 1, 5);
            assert(m.subrange(1, 5) =~= decimal(-1) + crlf());
            lemma_int_line(s, p + 1, -1);
        },
    }
}

/// The wire forms of well-formed values, found one after another at `p`,
/// parse back to those values.
pub proof fn lemma_parse_encoded_all(s: Seq<u8>, p: int, vs: Seq<Val>)
    requires
        forall|k: int| 0 <= k < vs.len() ==> well_formed(#[trigger] vs[k]),
        0 <= p,
        p + encode_all(vs).len() <= s.len(),
        s.subrange(p, p + encode_all(vs).len()) == encode_all(vs),
    ensures
        parse_items(s, p, vs.len() as int) == ParsedSeq::Done(vs, p + encode_all(vs).len()),
    decreases vs,
{
    if vs.len() > 0 {
        let rest = vs.subrange(1, vs.len() as int);
        let l0 = encode(vs[0]).len() as int;
        let all = encode_all(vs);
        assert(s.subrange(p, p + l0) =~= encode(vs[0]));
        lemma_parse_encoded(s, p, vs[0]);
        lemma_value_bounds(s, p);
        assert(all == encode(vs[0]) + encode_all(rest));
        assert forall|j: int| 0 <= j < encode_all(rest).len() implies #[trigger] s.subrange(p + l0, p + all.len())[j] == encode_all(rest)[j] by {
            assert(s[p + l0 + j] == s.subrange(p, p + all.len())[l0 + j]);
        }
        assert(s.subrange(p + l0, p + all.len()) =~= encode_all(rest));
        assert forall|k: int| 0 <= k < rest.len() implies well_formed(#[trigger] rest[k]) by {
            assert(rest[k] == vs[k + 1]);
        }
        lemma_parse_encoded_all(s, p + l0, rest);
        assert(seq![vs[0]] + rest =~= vs);
        assert(parse_value(s, p) == Parsed::Done(vs[0], p + l0));
        assert(parse_items(s, p + l0, vs.len() - 1) == ParsedSeq::Done(rest, p + l0 + encode_all(rest).len()));
    } else {
        assert(vs =~= seq![]);
    }
}

/// A CR LF pair found in `s` is found at the same place in any extension of `s`.
proof fn lemma_find_extend(s: Seq<u8>, t: Seq<u8>, i: int)
    requires
        s.len() <= t.len(),
        s == t.subrange(0, s.len() as int),
    ensures
        find_crlf(s, i) >= 0 ==> find_crlf(t, i) == find_crlf(s, i),
    decreases s.len() - i,
{
    if !(i < 0 || i + 1 >= s.len()) {
        assert(s[i] == t[i] && s[i + 1] == t[i + 1]);
        if !crlf_at(s, i) {
            lemma_find_extend(s, t, i + 1);
        }
    }
}

/// An integer line read in `s` is read the same in any extension of `s`.
pub proof fn lemma_int_line_extend(s: Seq<u8>, t: Seq<u8>, q: int)
    requires
        s.len() <= t.len(),
        s == t.subrange(0, s.len() as int),
        0 <= q,
    ensures
        !(parse_int_line(s, q) is Partial) ==> parse_int_line(t, q) == parse_int_line(s, q),
{
    lemma_find_extend(s, t, q);
    lemma_find_crlf(s, q);
    let e = find_crlf(s, q);
    if e >= 0 {
        assert(s.subrange(q, e) =~= t.subrange(q, e));
    }
}

/// Once the bytes of `s` decide the value at `p` (a value or a grammar
/// error), more bytes after them do not change the decision.
pub proof fn lemma_value_extend(s: Seq<u8>, t: Seq<u8>, p: int)
    requires
        s.len() <= t.len(),
        s == t.subrange(0, s.len() as int),
    ensures
        !(parse_value(s, p) is Partial) ==> parse_value(t, p) == parse_value(s, p),
    decreases s.len() - p, 0int,
{
    if 0 <= p < s.len() {
        assert(s[p] == t[p]);
        lemma_find_extend(s, t, p + 1);
        lemma_find_crlf(s, p + 1);
        let e = find_crlf(s, p + 1);
        if e >= 0 {
            assert(s.subrange(p + 1, e) =~= t.subrange(p + 1, e));
        }
        lemma_int_line_extend(s, t, p + 1);
        lemma_find_crlf(s, p + 1);
        if let Parsed::Done(Val::Int(n), q) = parse_int_line(s, p + 1) {
            if n >= 0 && q + n + 2 <= s.len() {
                assert(s[q + n] == t[q + n]);
                assert(s[q + n + 1] == t[q + n + 1]);
                assert(s.subrange(q, q + n) =~= t.subrange(q, q + n));
            }
            if n >= 0 && q > p && q <= s.len() {
                lemma_items_extend(s, t, q, n);
            }
        }
    }
}

/// The elements that the bytes of `s` decide are the same in any extension of `s`.
pub proof fn lemma_items_extend(s: Seq<u8>, t: Seq<u8>, p: int, n: int)
    requires
        s.len() <= t.len(),
        s == t.subrange(0, s.len() as int),
    ensures
        !(parse_items(s, p, n) is Partial) && 0 <= p <= s.len() ==> parse_items(t, p, n) == parse_items(s, p, n),
    decreases s.len() - p, 1int,
{
    if 0 <= p <= s.len() && n > 0 {
        lemma_value_extend(s, t, p);
        lemma_value_bounds(s, p);
        if let Parsed::Done(v, q) = parse_value(s, p) {
            lemma_items_extend(s, t, q, n - 1);
        }
    }
}

/// Between `i` and the first CR LF pair at or after it, no pair starts.
proof fn lemma_find_first(s: Seq<u8>, i: int)
    ensures
        find_crlf(s, i) >= 0 ==> forall|j: int| i <= j < find_crlf(s, i) ==> !crlf_at(s, j),
    decreases s.len() - i,
{
    if !(i < 0 || i + 1 >= s.len()) && !crlf_at(s, i) {
        lemma_find_first(s, i + 1);
    }
}

/// A CR LF pair that a longer buffer finds first is found first in any prefix
/// that holds it.
proof fn lemma_find_shrink(s: Seq<u8>, t: Seq<u8>, i: int)
    requires
        s.len() <= t.len(),
        s == t.subrange(0, s.len() as int),
        find_crlf(t, i) >= 0,
        find_crlf(t, i) + 1 < s.len(),
    ensures
        find_crlf(s, i) == find_crlf(t, i),
{
    let e = find_crlf(t, i);
    lemma_find_first(t, i);
    lemma_find_crlf(t, i);
    assert(s[e] == t[e] && s[e + 1] == t[e + 1]);
    assert forall|j: int| i <= j < e implies !crlf_at(s, j) by {
        assert(s[j] == t[j] && s[j + 1] == t[j + 1]);
        assert(!crlf_at(t, j));
    }
    lemma_find_at(s, i, e);
}

/// An integer line that a longer buffer reads is read the same in any prefix
/// that holds it.
pub proof fn lemma_int_line_shrink(s: Seq<u8>, t: Seq<u8>, q: int)
    requires
        s.len() <= t.len(),
        s == t.subrange(0, s.len() as int),
        0 <= q,
        parse_int_line(t, q) is Done,
        parse_int_line(t, q)->Done_1 <= s.len(),
    ensures
        parse_int_line(s, q) == parse_int_line(t, q),
{
    lemma_find_shrink(s, t, q);
    lemma_find_crlf(t, q);
    let e = find_crlf(t, q);
    assert(s.subrange(q, e) =~= t.subrange(q, e));
}

/// A value that a longer buffer holds is read the same in any prefix that
/// holds all of its bytes.
pub proof fn lemma_value_shrink(s: Seq<u8>, t: Seq<u8>, p: int)
    requires
        s.len() <= t.len(),
        s == t.subrange(0, s.len() as int),
        parse_value(t, p) is Done,
        parse_value(t, p)->Done_1 <= s.len(),
    ensures
        parse_value(s, p) == parse_value(t, p),
    decreases s.len() - p, 0int,
{
    lemma_value_bounds(t, p);
    assert(s[p] == t[p]);
    let tag = t[p];
    lemma_find_crlf(t, p + 1);
    if tag == 43 || tag == 45 {
        lemma_find_shrink(s, t, p + 1);
        let e = find_crlf(t, p + 1);
        assert(s.subrange(p + 1, e) =~= t.subrange(p + 1, e));
    } else if tag == 58 {
        lemma_int_line_shrink(s, t, p + 1);
    } else {
        let h = parse_int_line(t, p + 1);
        let e = find_crlf(t, p + 1);
        assert(h is Done);
        assert(h->Done_1 == e + 2);
        if let Parsed::Done(Val::Int(n), q) = h {
            if n < 0 {
                lemma_int_line_shrink(s, t, p + 1);
            } else if tag == 36 {
                lemma_int_line_shrink(s, t, p + 1);
                assert(s[q + n] == t[q + n]);
                assert(s[q + n + 1] == t[q + n + 1]);
                assert(s.subrange(q, q + n) =~= t.subrange(q, q + n));
            } else {
                lemma_items_bounds(t, q, n);
                lemma_int_line_shrink(s, t, p + 1);
                lemma_items_shrink(s, t, q, n);
            }
        }
    }
}

/// Elements that a longer buffer holds are read the same in any prefix that
/// holds all of their bytes.
pub proof fn lemma_items_shrink(s: Seq<u8>, t: Seq<u8>, p: int, n: int)
    requires
        s.len() <= t.len(),
        s == t.subrange(0, s.len() as int),
        0 <= p <= s.len(),
        parse_items(t, p, n) is Done,
        parse_items(t, p, n)->Done_1 <= s.len(),
    ensures
        parse_items(s, p, n) == parse_items(t, p, n),
    decreases s.len() - p, 1int,
{
    if n > 0 {
        lemma_value_bounds(t, p);
        if let Parsed::Done(v, q) = parse_value(t, p) {
            lemma_items_bounds(t, q, n - 1);
            lemma_value_shrink(s, t, p);
            lemma_items_shrink(s, t, q, n - 1);
        }
    }
}

/// A buffer that stops before the end of a value that a longer buffer holds
/// is undecided.
pub proof fn lemma_value_prefix(s: Seq<u8>, t: Seq<u8>, p: int)
    requires
        s.len() <= t.len(),
        s == t.subrange(0, s.len() as int),
        parse_value(t, p) is Done,
        s.len() < parse_value(t, p)->Done_1,
    ensures
        parse_value(s, p) is Partial,
{
    lemma_value_extend(s, t, p);
    lemma_value_bounds(s, p);
}

/// The value that a call of `decode` handed back, if it handed one back.
pub open spec fn produced(r: Result<Option<RedisValue>, R02Error>) -> Option<Val> {
    match r {
        Ok(Some(x)) => Some(x@),
        _ => None,
    }
}

/// `m` holds exactly one value, and nothing after it.
pub open spec fn complete_message(m: Seq<u8>) -> bool {
    parse_value(m, 0) is Done && parse_value(m, 0)->Done_1 == m.len()
}

/// Round trip: decoding the wire form of a well-formed value hands back that
/// value and leaves nothing in the buffer.
pub proof fn lemma_round_trip(v: Val, r: Result<Option<RedisValue>, R02Error>, after: Seq<u8>)
    requires
        well_formed(v),
        decoded(encode(v), r, after),
    ensures
        produced(r) == Some(v),
        after.len() == 0,
{
    let m = encode(v);
    assert(m.subrange(0, m.len() as int) =~= m);
    lemma_parse_encoded(m, 0, v);
}

/// Chunk invariance: a complete message fed in two pieces (the buffer that
/// the first call leaves, with the second piece appended) decodes to the value
/// that the whole message gives in one call, and leaves the same bytes.
pub proof fn lemma_chunk_invariance(
    m: Seq<u8>,
    i: int,
    r1: Result<Option<RedisValue>, R02Error>,
    a1: Seq<u8>,
    r2: Result<Option<RedisValue>, R02Error>,
    a2: Seq<u8>,
    r: Result<Option<RedisValue>, R02Error>,
    a: Seq<u8>,
)
    requires
        complete_message(m),
        0 <= i < m.len(),
        decoded(m.subrange(0, i), r1, a1),
        decoded(a1 + m.subrange(i, m.len() as int), r2, a2),
        decoded(m, r, a),
    ensures
        r1 matches Ok(None),
        produced(r) is Some,
        produced(r2) == produced(r),
        a2 == a,
{
    let s = m.subrange(0, i);
    assert(s == m.subrange(0, s.len() as int));
    lemma_value_prefix(s, m, 0);
    assert(a1 + m.subrange(i, m.len() as int) =~= m);
}

/// A strict prefix of a complete message decodes to nothing yet, and the
/// buffer keeps every byte of it.
pub proof fn lemma_prefix_not_consumed(m: Seq<u8>, i: int, r: Result<Option<RedisValue>, R02Error>, after: Seq<u8>)
    requires
        complete_message(m),
        0 <= i < m.len(),
        decoded(m.subrange(0, i), r, after),
    ensures
        r matches Ok(None),
        after == m.subrange(0, i),
{
    let s = m.subrange(0, i);
    assert(s == m.subrange(0, s.len() as int));
    lemma_value_prefix(s, m, 0);
}

/// The wire form of a well-formed value is a complete message.
pub proof fn lemma_encoded_complete(v: Val)
    requires
        well_formed(v),
    ensures
        complete_message(encode(v)),
{
    let m = encode(v);
    assert(m.subrange(0, m.len() as int) =~= m);
    lemma_parse_encoded(m, 0, v);
}

} // verus!
