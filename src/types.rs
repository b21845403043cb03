use vstd::prelude::*;

verus! {

broadcast use vstd::std_specs::vec::group_vec_axioms, vstd::seq::group_seq_axioms;

/// The payload of a simple string, an error or a bulk string.
pub type Value = Vec<u8>;

/// Wire form of the null array.
pub const NULL_ARRAY: &'static str = "*-1\r\n";

/// Wire form of the null bulk string.
pub const NULL_BULK_STRING: &'static str = "$-1\r\n";

/// A RESP value.
#[derive(Debug, PartialEq)]
pub enum RedisValue {
    SimpleString(Value),
    Error(Value),
    Int(i64),
    BulkString(Value),
    NullBulkString,
    Array(Vec<RedisValue>),
    NullArray,
}

/// The mathematical model of a RESP value: payloads as byte sequences,
/// integers as mathematical integers.
pub enum Val {
    Simple(Seq<u8>),
    Error(Seq<u8>),
    Int(int),
    Bulk(Seq<u8>),
    NullBulk,
    Array(Seq<Val>),
    NullArray,
}

impl RedisValue {
    pub open spec fn view(&self) -> Val
        decreases self,
    {
        match self {
            RedisValue::SimpleString(s) => Val::Simple(s@),
            RedisValue::Error(s) => Val::Error(s@),
            RedisValue::Int(i) => Val::Int(*i as int),
            RedisValue::BulkString(s) => Val::Bulk(s@),
            RedisValue::NullBulkString => Val::NullBulk,
            RedisValue::Array(a) => Val::Array(
                Seq::new(a.len() as nat, |i: int| if 0 <= i < a.len() { a[i].view() } else { Val::NullArray }),
            ),
            RedisValue::NullArray => Val::NullArray,
        }
    }
}

/// A deep copy of `v`.
pub fn copy_value(v: &RedisValue) -> (r: RedisValue)
    ensures
        r@ == v@,
    decreases v,
{
    match v {
        RedisValue::SimpleString(s) => RedisValue::SimpleString(s.clone()),
        RedisValue::Error(s) => RedisValue::Error(s.clone()),
        RedisValue::Int(i) => RedisValue::Int(*i),
        RedisValue::BulkString(s) => RedisValue::BulkString(s.clone()),
        RedisValue::NullBulkString => RedisValue::NullBulkString,
        RedisValue::Array(a) => {
            let mut out: Vec<RedisValue> = Vec::new();
            let mut k: usize = 0;
            while k < a.len()
                invariant
                    k <= a.len(),
                    *v == RedisValue::Array(*a),
                    out.len() == k,
                    forall|j: int| 0 <= j < k ==> (#[trigger] out[j])@ == a[j]@,
                decreases a.len() - k,
            {
                proof {
                    assert(decreases_to!(*v => v->Array_0));
                    assert(decreases_to!(*a => a[k as int]));
                }
                let c = copy_value(&a[k]);
                out.push(c);
                k = k + 1;
            }
            let r = RedisValue::Array(out);
            assert(r@ == v@) by {
                if let Val::Array(x) = r@ {
                    if let Val::Array(y) = v@ {
                        assert(x =~= y);
                    }
                }
            }
            r
        },
        RedisValue::NullArray => RedisValue::NullArray,
    }
}

impl Clone for RedisValue {
    fn clone(&self) -> (r: Self)
        ensures
            r@ == self@,
    {
        copy_value(self)
    }
}

} // verus!
