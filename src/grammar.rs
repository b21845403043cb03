use vstd::prelude::*;
use crate::types::Val;

verus! {

broadcast use vstd::seq::group_seq_axioms;

/// The two-byte line terminator.
pub open spec fn crlf() -> Seq<u8> {
    seq![13u8, 10u8]
}

/// A CR LF pair starts at index `i` of `s`.
pub open spec fn crlf_at(s: Seq<u8>, i: int) -> bool {
    0 <= i && i + 1 < s.len() && s[i] == 13 && s[i + 1] == 10
}

/// Index of the first CR LF pair of `s` at or after `i`; -1 when there is none.
pub open spec fn find_crlf(s: Seq<u8>, i: int) -> int
    decreases s.len() - i,
{
    if i < 0 || i + 1 >= s.len() {
        -1
    } else if crlf_at(s, i) {
        i
    } else {
        find_crlf(s, i + 1)
    }
}

/// ASCII whitespace: space, tab, line feed, vertical tab, form feed, carriage return.
pub open spec fn is_space(b: u8) -> bool {
    b == 32 || (9 <= b && b <= 13)
}

pub open spec fn is_digit(b: u8) -> bool {
    48 <= b && b <= 57
}

pub open spec fn all_digits(d: Seq<u8>) -> bool {
    forall|i: int| 0 <= i < d.len() ==> is_digit(#[trigger] d[i])
}

/// `w` without its leading whitespace.
pub open spec fn trim_start(w: Seq<u8>) -> Seq<u8>
    decreases w.len(),
{
    if w.len() > 0 && is_space(w[0]) {
        trim_start(w.subrange(1, w.len() as int))
    } else {
        w
    }
}

/// `w` without its trailing whitespace.
pub open spec fn trim_end(w: Seq<u8>) -> Seq<u8>
    decreases w.len(),
{
    if w.len() > 0 && is_space(w.last()) {
        trim_end(w.drop_last())
    } else {
        w
    }
}

/// The number that the decimal digits `d` spell.
pub open spec fn digits_value(d: Seq<u8>) -> int
    decreases d.len(),
{
    if d.len() == 0 {
        0
    } else {
        digits_value(d.drop_last()) * 10 + (d.last() - 48)
    }
}

/// An optional sign followed by one or more decimal digits.
pub open spec fn signed_value(t: Seq<u8>) -> Option<int> {
    if t.len() > 0 && (t[0] == 45 || t[0] == 43) {
        let d = t.subrange(1, t.len() as int);
        if d.len() > 0 && all_digits(d) {
            Some(if t[0] == 45 { -digits_value(d) } else { digits_value(d) })
        } else {
            None
        }
    } else if t.len() > 0 && all_digits(t) {
        Some(digits_value(t))
    } else {
        None
    }
}

/// The integer that a word holds: surrounding whitespace is ignored, and the
/// value must fit in a signed 64-bit integer.
pub open spec fn int_of_word(w: Seq<u8>) -> Option<int> {
    match signed_value(trim_end(trim_start(w))) {
        Some(n) => if i64::MIN <= n <= i64::MAX {
            Some(n)
        } else {
            None
        },
        None => None,
    }
}

/// Outcome of parsing one value at a position of a buffer.
pub enum Parsed {
    /// The value, and the index just past it.
    Done(Val, int),
    /// The buffer ends before the value does.
    Partial,
    /// The bytes break the grammar.
    Bad,
}

/// Outcome of parsing the elements of an array.
pub enum ParsedSeq {
    Done(Seq<Val>, int),
    Partial,
    Bad,
}

/// An integer word starting at `p` and its terminator.
pub open spec fn parse_int_line(s: Seq<u8>, p: int) -> Parsed {
    let e = find_crlf(s, p);
    if e < 0 {
        Parsed::Partial
    } else {
        match int_of_word(s.subrange(p, e)) {
            Some(n) => Parsed::Done(Val::Int(n), e + 2),
            None => Parsed::Bad,
        }
    }
}

/// The value that starts at index `p` of `s`.
pub open spec fn parse_value(s: Seq<u8>, p: int) -> Parsed
    decreases s.len() - p, 0int,
{
    if p < 0 || p >= s.len() {
        Parsed::Partial
    } else {
        let tag = s[p];
        if tag == 43 || tag == 45 {
            let e = find_crlf(s, p + 1);
            if e < 0 {
                Parsed::Partial
            } else {
                let w = s.subrange(p + 1, e);
                Parsed::Done(if tag == 43 { Val::Simple(w) } else { Val::Error(w) }, e + 2)
            }
        } else if tag == 58 {
            parse_int_line(s, p + 1)
        } else if tag == 36 || tag == 42 {
            match parse_int_line(s, p + 1) {
                Parsed::Done(Val::Int(n), q) => {
                    if n < 0 {
                        Parsed::Done(if tag == 36 { Val::NullBulk } else { Val::NullArray }, q)
                    } else if tag == 36 {
                        if q + n + 2 > s.len() {
                            Parsed::Partial
                        } else if crlf_at(s, q + n) {
                            Parsed::Done(Val::Bulk(s.subrange(q, q + n)), q + n + 2)
                        } else {
                            Parsed::Bad
                        }
                    } else if q <= p || q > s.len() {
                        Parsed::Bad
                    } else {
                        match parse_items(s, q, n) {
                            ParsedSeq::Done(vs, r) => Parsed::Done(Val::Array(vs), r),
                            ParsedSeq::Partial => Parsed::Partial,
                            ParsedSeq::Bad => Parsed::Bad,
                        }
                    }
                },
                Parsed::Partial => Parsed::Partial,
                _ => Parsed::Bad,
            }
        } else {
            Parsed::Bad
        }
    }
}

/// `n` values, one after another, starting at index `p` of `s`.
pub open spec fn parse_items(s: Seq<u8>, p: int, n: int) -> ParsedSeq
    decreases s.len() - p, 1int,
{
    if p < 0 || p > s.len() {
        ParsedSeq::Bad
    } else if n <= 0 {
        ParsedSeq::Done(seq![], p)
    } else {
        match parse_value(s, p) {
            Parsed::Done(v, q) => {
                if q <= p || q > s.len() {
                    ParsedSeq::Bad
                } else {
                    match parse_items(s, q, n - 1) {
                        ParsedSeq::Done(vs, r) => ParsedSeq::Done(seq![v] + vs, r),
                        ParsedSeq::Partial => ParsedSeq::Partial,
                        ParsedSeq::Bad => ParsedSeq::Bad,
                    }
                }
            },
            Parsed::Partial => ParsedSeq::Partial,
            Parsed::Bad => ParsedSeq::Bad,
        }
    }
}

/// Decimal digits of `n`, most significant first, without leading zeros.
pub open spec fn digits_of(n: nat) -> Seq<u8>
    decreases n,
{
    if n < 10 {
        seq![(48 + n) as u8]
    } else {
        digits_of(n / 10) + seq![(48 + n % 10) as u8]
    }
}

/// Decimal form of `n`, with a leading `-` when it is negative.
pub open spec fn decimal(n: int) -> Seq<u8> {
    if n < 0 {
        seq![45u8] + digits_of((-n) as nat)
    } else {
        digits_of(n as nat)
    }
}

/// The wire form of a value.
pub open spec fn encode(v: Val) -> Seq<u8>
    decreases v,
{
    match v {
        Val::Simple(b) => seq![43u8] + b + crlf(),
        Val::Error(b) => seq![45u8] + b + crlf(),
        Val::Int(n) => seq![58u8] + decimal(n) + crlf(),
        Val::Bulk(b) => seq![36u8] + decimal(b.len() as int) + crlf() + b + crlf(),
        Val::NullBulk => seq![36u8, 45u8, 49u8, 13u8, 10u8],
        Val::Array(vs) => seq![42u8] + decimal(vs.len() as int) + crlf() + encode_all(vs),
        Val::NullArray => seq![42u8, 45u8, 49u8, 13u8, 10u8],
    }
}

/// The wire forms of `vs`, concatenated in order.
pub open spec fn encode_all(vs: Seq<Val>) -> Seq<u8>
    decreases vs,
{
    if vs.len() == 0 {
        seq![]
    } else {
        encode(vs[0]) + encode_all(vs.subrange(1, vs.len() as int))
    }
}

/// `b` holds no CR LF pair.
pub open spec fn no_crlf(b: Seq<u8>) -> bool {
    forall|j: int| 0 <= j < b.len() - 1 ==> !(#[trigger] b[j] == 13 && b[j + 1] == 10)
}

/// A value that the wire format can carry: simple strings and errors hold
/// no CR LF pair, and integers and lengths fit in a signed 64-bit integer.
pub open spec fn well_formed(v: Val) -> bool
    decreases v,
{
    match v {
        Val::Simple(b) => no_crlf(b),
        Val::Error(b) => no_crlf(b),
        Val::Int(i) => i64::MIN <= i <= i64::MAX,
        Val::Bulk(b) => b.len() <= i64::MAX,
        Val::Array(vs) => vs.len() <= i64::MAX && forall|k: int| 0 <= k < vs.len() ==> well_formed(#[trigger] vs[k]),
        _ => true,
    }
}

} // verus!
