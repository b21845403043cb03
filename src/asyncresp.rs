use vstd::prelude::*;
use bytes::BytesMut;
use crate::grammar::{crlf, decimal, digits_of, encode, encode_all, parse_value, Parsed};
use crate::grammar::{parse_items, ParsedSeq};
use crate::parse::{glue, lemma_value_bounds, parse_int_line_at, parse_value_at, views, Outcome};
use crate::resume::{
    close, extends, lemma_close_open, lemma_close_push, lemma_close_undecided, lemma_header_transfer,
    lemma_items_step, lemma_value_transfer, Frame,
};
use crate::types::{RedisValue, Val};

verus! {

broadcast use vstd::seq::group_seq_axioms, vstd::std_specs::vec::group_vec_axioms;

#[verifier::external_type_specification]
#[verifier::external_body]
pub struct ExBytesMut(BytesMut);

#[verifier::external_type_specification]
#[verifier::external_body]
pub struct ExIoError(std::io::Error);

/// The bytes that a `BytesMut` holds, in order.
pub uninterp spec fn buf_contents(b: BytesMut) -> Seq<u8>;

/// Relies on `<BytesMut as Deref>::deref`: a slice of the bytes held, in order.
#[verifier::external_body]
fn buf_bytes(b: &BytesMut) -> (r: &[u8])
    ensures
        r@ == buf_contents(*b),
{
    &b[..]
}

/// Relies on `BytesMut::split_to`: the buffer keeps the bytes from `at` on
/// (it panics when `at` exceeds the length).
#[verifier::external_body]
fn buf_advance(b: &mut BytesMut, at: usize)
    requires
        at <= buf_contents(*old(b)).len(),
    ensures
        buf_contents(*final(b)) == buf_contents(*old(b)).subrange(at as int, buf_contents(*old(b)).len() as int),
{
    b.split_to(at);
}

/// Relies on `BytesMut::extend_from_slice`: appends `s` (it panics when the
/// new length overflows `usize`).
#[verifier::external_body]
fn buf_extend(b: &mut BytesMut, s: &[u8])
    requires
        buf_contents(*old(b)).len() + s@.len() <= usize::MAX,
    ensures
        buf_contents(*final(b)) == buf_contents(*old(b)) + s@,
{
    b.extend_from_slice(s)
}

/// Failures of a connection: of the transport, of the configuration, or of
/// the protocol.
#[derive(Debug)]
pub enum R02Error {
    /// The transport failed.
    IOError(std::io::Error),
    /// An address in the configuration did not parse.
    AddrParseError(String),
    /// The bytes received break the protocol.
    Else(String),
}

impl From<String> for R02Error {
    fn from(err: String) -> R02Error {
        R02Error::Else(err)
    }
}

impl vstd::std_specs::convert::FromSpecImpl<String> for R02Error {
    open spec fn obeys_from_spec() -> bool {
        true
    }

    open spec fn from_spec(v: String) -> R02Error {
        R02Error::Else(v)
    }
}

impl From<std::io::Error> for R02Error {
    fn from(err: std::io::Error) -> R02Error {
        R02Error::IOError(err)
    }
}

impl vstd::std_specs::convert::FromSpecImpl<std::io::Error> for R02Error {
    open spec fn obeys_from_spec() -> bool {
        true
    }

    open spec fn from_spec(v: std::io::Error) -> R02Error {
        R02Error::IOError(v)
    }
}

/// What one call of `decode` owes on a buffer that held `s`: the call
/// returned `r` and left `after` in the buffer.
pub open spec fn decoded(s: Seq<u8>, r: Result<Option<RedisValue>, R02Error>, after: Seq<u8>) -> bool {
    match parse_value(s, 0) {
        Parsed::Done(v, q) => match r {
            Ok(Some(x)) => x@ == v && after == s.subrange(q, s.len() as int),
            _ => false,
        },
        Parsed::Partial => r matches Ok(None) && after == s,
        Parsed::Bad => r matches Err(R02Error::Else(_)) && after == s,
    }
}

/// Decoder and encoder of RESP values for one connection.
///
/// Between calls the decoder keeps what it has committed of a message still
/// in progress: the stack of arrays being read (outermost first), the offset
/// in the buffer where the next element starts, and the bytes before that
/// offset. A later call on a buffer that starts with those bytes resumes at
/// that offset; on any other buffer it starts over.
pub struct RedisValueCodec {
    frames: Vec<Frame>,
    pos: usize,
    committed: Vec<u8>,
}

impl Default for RedisValueCodec {
    fn default() -> (r: Self)
        ensures
            r.wf(),
    {
        RedisValueCodec { frames: Vec::new(), pos: 0, committed: Vec::new() }
    }
}

/// Copies `buf[lo..hi]` onto the end of `out`.
fn append_range(out: &mut Vec<u8>, buf: &[u8], lo: usize, hi: usize)
    requires
        lo <= hi <= buf.len(),
    ensures
        final(out)@ == old(out)@ + buf@.subrange(lo as int, hi as int),
{
    let mut k: usize = lo;
    while k < hi
        invariant
            lo <= k <= hi <= buf.len(),
            out@ == old(out)@ + buf@.subrange(lo as int, k as int),
        decreases hi - k,
    {
        out.push(buf[k]);
        k = k + 1;
        assert(out@ =~= old(out)@ + buf@.subrange(lo as int, k as int));
    }
}

/// `buf` starts with the bytes `c`.
fn starts_with(buf: &[u8], c: &Vec<u8>) -> (r: bool)
    ensures
        r == extends(c@, buf@),
{
    if c.len() > buf.len() {
        return false;
    }
    let mut k: usize = 0;
    while k < c.len()
        invariant
            k <= c.len() <= buf.len(),
            forall|j: int| 0 <= j < k ==> c@[j] == buf@[j],
        decreases c.len() - k,
    {
        if c[k] != buf[k] {
            assert(c@[k as int] != buf@.subrange(0, c.len() as int)[k as int]);
            return false;
        }
        k = k + 1;
    }
    assert(c@ =~= buf@.subrange(0, c.len() as int));
    true
}

impl RedisValueCodec {
    /// The state agrees with every buffer that starts with the committed bytes.
    pub closed spec fn wf(&self) -> bool {
        &&& self.committed@.len() == self.pos
        &&& self.frames@.len() == 0 ==> self.pos == 0
        &&& forall|i: int| 0 <= i < self.frames@.len() - 1 ==> #[trigger] self.frames@[i].remaining >= 1
        &&& self.frames@.len() > 0 ==> self.frames@.last().remaining >= 0
        &&& self.frames@.len() > 0 ==> forall|t: Seq<u8>| #[trigger] extends(self.committed@, t) ==> parse_value(t, 0)
            == close(t, self.frames@, parse_items(t, self.pos as int, self.frames@.last().remaining as int))
    }

    /// Forgets any message in progress.
    fn reset(&mut self)
        ensures
            final(self).wf(),
            final(self).frames@.len() == 0,
            final(self).committed@.len() == 0,
    {
        self.frames = Vec::new();
        self.pos = 0;
        self.committed = Vec::new();
    }

    /// Takes the next complete value off the front of `bytes`. On a partial
    /// message the buffer is left as it was, `Ok(None)` comes back, and the
    /// progress made is kept for the next call; on bytes that break the
    /// grammar a protocol error comes back.
    pub fn decode(&mut self, bytes: &mut BytesMut) -> (r: Result<Option<RedisValue>, R02Error>)
        requires
            old(self).wf(),
        ensures
            final(self).wf(),
            decoded(buf_contents(*old(bytes)), r, buf_contents(*final(bytes))),
    {
        let buffer = buf_bytes(bytes);
        let ghost s = buffer@;
        if !starts_with(buffer, &self.committed) {
            self.reset();
            assert(self.committed@ =~= s.subrange(0, 0));
        }
        loop
            invariant
                self.wf(),
                s == buffer@,
                s == buf_contents(*bytes),
                s == buf_contents(*old(bytes)),
                extends(self.committed@, s),
                self.pos <= buffer.len(),
            decreases buffer.len() - self.pos, self.frames@.len(),
        {
            let nf = self.frames.len();
            let p = self.pos;
            if nf > 0 && self.frames[nf - 1].remaining == 0 {
                let ghost fs = self.frames@;
                assert(extends(self.committed@, s));
                let f = match self.frames.pop() {
                    Some(f) => f,
                    None => {
                        return Ok(None);
                    },
                };
                let arr = RedisValue::Array(f.items);
                proof {
                    assert(arr@ == Val::Array(views(f.items@))) by {
                        assert(arr@->Array_0 =~= views(f.items@));
                    }
                    assert(views(f.items@) + seq![] =~= views(f.items@));
                    assert(parse_value(s, 0) == close(s, fs, parse_items(s, p as int, 0)));
                }
                if nf == 1 {
                    self.reset();
                    buf_advance(bytes, p);
                    return Ok(Some(arr));
                }
                let mut parent = match self.frames.pop() {
                    Some(g) => g,
                    None => {
                        return Ok(None);
                    },
                };
                let ghost old_parent = parent;
                parent.items.push(arr);
                parent.remaining = parent.remaining - 1;
                self.frames.push(parent);
                proof {
                    let gs = self.frames@;
                    let hs = gs.drop_last().push(old_parent);
                    assert(fs.drop_last() =~= hs);
                    assert(fs[fs.len() - 2] == old_parent);
                    assert(hs.drop_last() =~= gs.drop_last());
                    assert(views(parent.items@) =~= views(old_parent.items@).push(arr@));
                    assert forall|t: Seq<u8>| #[trigger] extends(self.committed@, t) implies parse_value(t, 0)
                        == close(t, gs, parse_items(t, p as int, gs.last().remaining as int)) by {
                        assert(views(f.items@) + seq![] =~= views(f.items@));
                        assert(close(t, fs, parse_items(t, p as int, 0)) == close(t, hs, glue(seq![arr@], parse_items(t, p as int, old_parent.remaining - 1))));
                        lemma_close_push(t, hs, gs, arr@, parse_items(t, p as int, old_parent.remaining - 1));
                    }
                    assert forall|i: int| 0 <= i < gs.len() - 1 implies #[trigger] gs[i].remaining >= 1 by {
                        assert(gs[i] == fs[i]);
                    }
                }
                continue;
            }
            let ghost fs = self.frames@;
            if p < buffer.len() && buffer[p] == 42 {
                if let Outcome::Done(RedisValue::Int(k), q) = parse_int_line_at(buffer, p + 1) {
                    if k >= 0 {
                        proof {
                            crate::parse::lemma_find_crlf(s, p + 1);
                            assert(s.subrange(0, q as int) == s.subrange(0, q as int));
                            lemma_header_transfer(s, s, p as int, k as int, q as int);
                        }
                        append_range(&mut self.committed, buffer, p, q);
                        self.pos = q;
                        self.frames.push(Frame { remaining: k, items: Vec::new() });
                        proof {
                            let gs = self.frames@;
                            let c = self.committed@;
                            assert(c =~= s.subrange(0, q as int));
                            assert(gs.drop_last() =~= fs);
                            assert forall|t: Seq<u8>| #[trigger] extends(c, t) implies parse_value(t, 0)
                                == close(t, gs, parse_items(t, q as int, k as int)) by {
                                lemma_header_transfer(s, t, p as int, k as int, q as int);
                                if nf == 0 {
                                    assert(views(gs.last().items@) =~= Seq::<Val>::empty());
                                    if let ParsedSeq::Done(vs, e) = parse_items(t, q as int, k as int) {
                                        assert(seq![] + vs =~= vs);
                                    }
                                } else {
                                    let c0 = s.subrange(0, p as int);
                                    assert(extends(c0, t)) by {
                                        assert(c0 =~= t.subrange(0, p as int));
                                    }
                                    lemma_items_step(t, p as int, fs.last().remaining as int);
                                    lemma_close_open(t, fs, gs, parse_items(t, q as int, k as int));
                                }
                            }
                            assert forall|i: int| 0 <= i < gs.len() - 1 implies #[trigger] gs[i].remaining >= 1 by {
                                assert(gs[i] == fs[i]);
                            }
                        }
                        continue;
                    }
                }
            }
            proof {
                if nf > 0 {
                    lemma_items_step(s, p as int, fs.last().remaining as int);
                }
            }
            match parse_value_at(buffer, p) {
                Outcome::Done(v, e) => {
                    proof {
                        lemma_value_bounds(s, p as int);
                    }
                    if nf == 0 {
                        buf_advance(bytes, e);
                        return Ok(Some(v));
                    }
                    let mut f = match self.frames.pop() {
                        Some(f) => f,
                        None => {
                            return Ok(None);
                        },
                    };
                    let ghost old_f = f;
                    f.items.push(v);
                    f.remaining = f.remaining - 1;
                    self.frames.push(f);
                    append_range(&mut self.committed, buffer, p, e);
                    self.pos = e;
                    proof {
                        let gs = self.frames@;
                        let c = self.committed@;
                        assert(c =~= s.subrange(0, e as int));
                        assert(gs.drop_last() =~= fs.drop_last());
                        assert(views(f.items@) =~= views(old_f.items@).push(v@));
                        assert forall|t: Seq<u8>| #[trigger] extends(c, t) implies parse_value(t, 0)
                            == close(t, gs, parse_items(t, e as int, gs.last().remaining as int)) by {
                            lemma_value_transfer(s, t, p as int);
                            let c0 = s.subrange(0, p as int);
                            assert(extends(c0, t)) by {
                                assert(c0 =~= t.subrange(0, p as int));
                            }
                            lemma_items_step(t, p as int, fs.last().remaining as int);
                            lemma_close_push(t, fs, gs, v@, parse_items(t, e as int, fs.last().remaining - 1));
                        }
                        assert forall|i: int| 0 <= i < gs.len() - 1 implies #[trigger] gs[i].remaining >= 1 by {
                            assert(gs[i] == fs[i]);
                        }
                    }
                },
                Outcome::Partial => {
                    proof {
                        if nf > 0 {
                            lemma_close_undecided(s, fs, parse_items(s, p as int, fs.last().remaining as int));
                        }
                    }
                    return Ok(None);
                },
                Outcome::Bad => {
                    proof {
                        if nf > 0 {
                            lemma_close_undecided(s, fs, parse_items(s, p as int, fs.last().remaining as int));
                        }
                    }
                    self.reset();
                    return Err(R02Error::Else("Expected a RESP value, got invalid bytes".to_string()));
                },
            }
        }
    }

    /// Appends the wire form of `item` to `dst`.
    pub fn encode(&mut self, item: RedisValue, dst: &mut BytesMut) -> (r: Result<(), std::io::Error>)
        requires
            buf_contents(*old(dst)).len() + encode(item@).len() <= usize::MAX,
        ensures
            r is Ok,
            buf_contents(*final(dst)) == buf_contents(*old(dst)) + encode(item@),
    {
        write_redis_value(&item, dst);
        Ok(())
    }
}

/// Appends the wire form of `item` to `dst`.
fn write_redis_value(item: &RedisValue, dst: &mut BytesMut)
    requires
        buf_contents(*old(dst)).len() + encode(item@).len() <= usize::MAX,
    ensures
        buf_contents(*final(dst)) == buf_contents(*old(dst)) + encode(item@),
{
    let mut out: Vec<u8> = Vec::new();
    encode_value(item, &mut out);
    assert(out@ =~= encode(item@));
    buf_extend(dst, out.as_slice());
}

/// Appends `src` to `out`.
fn append(out: &mut Vec<u8>, src: &[u8])
    ensures
        final(out)@ == old(out)@ + src@,
{
    let mut k: usize = 0;
    while k < src.len()
        invariant
            k <= src.len(),
            out@ == old(out)@ + src@.subrange(0, k as int),
        decreases src.len() - k,
    {
        out.push(src[k]);
        k = k + 1;
        assert(out@ =~= old(out)@ + src@.subrange(0, k as int));
    }
    assert(src@.subrange(0, k as int) =~= src@);
}

/// Decimal digits of `n`.
pub fn digits_bytes(n: u64) -> (r: Vec<u8>)
    ensures
        r@ == digits_of(n as nat),
    decreases n,
{
    if n < 10 {
        let mut v: Vec<u8> = Vec::new();
        v.push((48 + n) as u8);
        assert(v@ =~= digits_of(n as nat));
        v
    } else {
        let mut v = digits_bytes(n / 10);
        v.push((48 + n % 10) as u8);
        assert(v@ =~= digits_of(n as nat));
        v
    }
}

/// Decimal form of `n`, with a leading `-` when it is negative.
pub fn decimal_bytes(n: i64) -> (r: Vec<u8>)
    ensures
        r@ == decimal(n as int),
{
    if n < 0 {
        let m: u64 = (0i128 - n as i128) as u64;
        let mut v: Vec<u8> = Vec::new();
        v.push(45u8);
        let d = digits_bytes(m);
        append(&mut v, d.as_slice());
        v
    } else {
        digits_bytes(n as u64)
    }
}

/// The wire forms of a sequence, one after another, split anywhere.
pub proof fn lemma_encode_all_concat(a: Seq<Val>, b: Seq<Val>)
    ensures
        encode_all(a + b) == encode_all(a) + encode_all(b),
    decreases a.len(),
{
    if a.len() == 0 {
        assert(a + b =~= b);
    } else {
        lemma_encode_all_concat(a.subrange(1, a.len() as int), b);
        assert((a + b).subrange(1, (a + b).len() as int) =~= a.subrange(1, a.len() as int) + b);
    }
}

/// Appends a header line: `tag`, the decimal form of `n`, CR LF.
fn put_line(out: &mut Vec<u8>, tag: u8, n: i64)
    ensures
        final(out)@ == old(out)@ + seq![tag] + decimal(n as int) + crlf(),
{
    out.push(tag);
    let d = decimal_bytes(n);
    append(out, d.as_slice());
    out.push(13u8);
    out.push(10u8);
}

/// Appends a header line: `tag`, the decimal form of the length `n`, CR LF.
fn put_len(out: &mut Vec<u8>, tag: u8, n: usize)
    ensures
        final(out)@ == old(out)@ + seq![tag] + decimal(n as int) + crlf(),
{
    out.push(tag);
    let d = digits_bytes(n as u64);
    append(out, d.as_slice());
    out.push(13u8);
    out.push(10u8);
}

/// Appends the wire form of `item` to `out`.
pub fn encode_value(item: &RedisValue, out: &mut Vec<u8>)
    ensures
        final(out)@ == old(out)@ + encode(item@),
    decreases item,
{
    let ghost start = out@;
    match item {
        RedisValue::Error(e) => {
            out.push(45u8);
            append(out, e.as_slice());
            out.push(13u8);
            out.push(10u8);
            assert(out@ =~= start + encode(item@));
        },
        RedisValue::SimpleString(s) => {
            out.push(43u8);
            append(out, s.as_slice());
            out.push(13u8);
            out.push(10u8);
            assert(out@ =~= start + encode(item@));
        },
        RedisValue::BulkString(s) => {
            put_len(out, 36u8, s.len());
            append(out, s.as_slice());
            out.push(13u8);
            out.push(10u8);
            assert(out@ =~= start + encode(item@));
        },
        RedisValue::Array(array) => {
            put_len(out, 42u8, array.len());
            let ghost head = out@;
            let ghost vs = views(array@);
            let mut k: usize = 0;
            while k < array.len()
                invariant
                    k <= array.len(),
                    *item == RedisValue::Array(*array),
                    vs == views(array@),
                    out@ == head + encode_all(vs.subrange(0, k as int)),
                decreases array.len() - k,
            {
                proof {
                    assert(decreases_to!(*item => item->Array_0));
                    assert(decreases_to!(*array => array[k as int]));
                }
                let ghost before = out@;
                encode_value(&array[k], out);
                proof {
                    lemma_encode_all_concat(vs.subrange(0, k as int), seq![vs[k as int]]);
                    assert(vs.subrange(0, k + 1) =~= vs.subrange(0, k as int) + seq![vs[k as int]]);
                    assert(seq![vs[k as int]].subrange(1, 1) =~= Seq::<Val>::empty());
                    assert(encode_all(seq![vs[k as int]]) == encode(vs[k as int]) + encode_all(Seq::<Val>::empty()));
                    assert(encode(vs[k as int]) + encode_all(Seq::<Val>::empty()) =~= encode(vs[k as int]));
                }
                k = k + 1;
                assert(out@ =~= head + encode_all(vs.subrange(0, k as int)));
            }
            assert(vs.subrange(0, k as int) =~= vs);
            assert(item@ == Val::Array(vs)) by {
                assert(item@->Array_0 =~= vs);
            }
            assert(out@ =~= start + encode(item@));
        },
        RedisValue::Int(i) => {
            put_line(out, 58u8, *i);
            assert(out@ =~= start + encode(item@));
        },
        RedisValue::NullArray => {
            out.push(42u8);
            out.push(45u8);
            out.push(49u8);
            out.push(13u8);
            out.push(10u8);
            assert(out@ =~= start + encode(item@));
        },
        RedisValue::NullBulkString => {
            out.push(36u8);
            out.push(45u8);
            out.push(49u8);
            out.push(13u8);
            out.push(10u8);
            assert(out@ =~= start + encode(item@));
        },
    }
}

} // verus!
