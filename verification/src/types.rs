//! The values of the RESP protocol, as requests arrive and replies leave.

use vstd::prelude::*;
use vstd::string::StringSliceAdditionalSpecFns;

verus! {

/// A RESP value.
#[derive(PartialEq, Debug)]
pub enum RedisValueRef {
    BulkString(Vec<u8>),
    SimpleString(Vec<u8>),
    /// An error as read from a peer.
    Error(Vec<u8>),
    /// An error reply of this server; it goes out as an error.
    ErrorMsg(Vec<u8>),
    Int(i64),
    Array(Vec<RedisValueRef>),
    NullArray,
    NullBulkString,
}

/// The model of a RESP value: its byte strings as sequences.
pub enum Resp {
    Bulk(Seq<u8>),
    Simple(Seq<u8>),
    Error(Seq<u8>),
    ErrorMsg(Seq<u8>),
    Int(i64),
    Array(Seq<Resp>),
    NullArray,
    NullBulk,
}

impl View for RedisValueRef {
    type V = Resp;

    open spec fn view(&self) -> Resp
        decreases self,
    {
        match self {
            RedisValueRef::BulkString(b) => Resp::Bulk(b@),
            RedisValueRef::SimpleString(b) => Resp::Simple(b@),
            RedisValueRef::Error(b) => Resp::Error(b@),
            RedisValueRef::ErrorMsg(b) => Resp::ErrorMsg(b@),
            RedisValueRef::Int(n) => Resp::Int(*n),
            RedisValueRef::Array(items) => Resp::Array(
                Seq::new(
                    items@.len(),
                    |i: int|
                        if 0 <= i < items@.len() {
                            items@[i]@
                        } else {
                            Resp::NullBulk
                        },
                ),
            ),
            RedisValueRef::NullArray => Resp::NullArray,
            RedisValueRef::NullBulkString => Resp::NullBulk,
        }
    }
}

/// The models of a sequence of values.
pub open spec fn resp_views(v: Seq<RedisValueRef>) -> Seq<Resp> {
    Seq::new(v.len(), |i: int| v[i]@)
}

/// An array's model is the array of its items' models.
pub proof fn lemma_array_view(items: Vec<RedisValueRef>)
    ensures
        RedisValueRef::Array(items)@ == Resp::Array(resp_views(items@)),
{
    reveal_with_fuel(<RedisValueRef as View>::view, 2);
    let v = RedisValueRef::Array(items);
    let s = v@->Array_0;
    assert(v@ is Array);
    assert(s.len() == items@.len());
    assert forall|i: int| 0 <= i < s.len() implies s[i] == resp_views(items@)[i] by {
        reveal_with_fuel(<RedisValueRef as View>::view, 2);
        assert(s[i] == items@[i]@);
    }
    assert(s =~= resp_views(items@));
}

/// A copy of a value, item by item.
pub fn copy_value(v: &RedisValueRef) -> (r: RedisValueRef)
    ensures
        r@ == v@,
    decreases v,
{
    match v {
        RedisValueRef::BulkString(b) => RedisValueRef::BulkString(
            vstd::slice::slice_to_vec(b.as_slice()),
        ),
        RedisValueRef::SimpleString(b) => RedisValueRef::SimpleString(
            vstd::slice::slice_to_vec(b.as_slice()),
        ),
        RedisValueRef::Error(b) => RedisValueRef::Error(vstd::slice::slice_to_vec(b.as_slice())),
        RedisValueRef::ErrorMsg(b) => RedisValueRef::ErrorMsg(
            vstd::slice::slice_to_vec(b.as_slice()),
        ),
        RedisValueRef::Int(n) => RedisValueRef::Int(*n),
        RedisValueRef::Array(items) => {
            let mut out: Vec<RedisValueRef> = Vec::new();
            let mut i: usize = 0;
            while i < items.len()
                invariant
                    *v == RedisValueRef::Array(*items),
                    i <= items@.len(),
                    out@.len() == i,
                    forall|k: int| 0 <= k < i ==> (#[trigger] out@[k])@ == items@[k]@,
                decreases items@.len() - i,
            {
                proof {
                    broadcast use vstd::std_specs::vec::axiom_vec_index_decreases;
                    assert(v->Array_0 == *items);
                    assert(decreases_to!(*v => v->Array_0));
                    assert(decreases_to!(*items => items@[i as int]));
                    assert(decreases_to!(v => items@[i as int]));
                }
                out.push(copy_value(&items[i]));
                i = i + 1;
            }
            proof {
                lemma_array_view(out);
                lemma_array_view(*items);
                assert(resp_views(out@) =~= resp_views(items@));
            }
            RedisValueRef::Array(out)
        },
        RedisValueRef::NullArray => RedisValueRef::NullArray,
        RedisValueRef::NullBulkString => RedisValueRef::NullBulkString,
    }
}

impl Clone for RedisValueRef {
    fn clone(&self) -> (r: Self)
        ensures
            r@ == self@,
    {
        copy_value(self)
    }
}

/// Bulk strings of the given bytes.
pub open spec fn bulk_items(args: Seq<Seq<u8>>) -> Seq<Resp> {
    Seq::new(args.len(), |i: int| Resp::Bulk(args[i]))
}

/// A request made of bulk-string arguments.
pub open spec fn bulk_request(args: Seq<Seq<u8>>) -> Resp {
    Resp::Array(bulk_items(args))
}

/// The error reply carrying a fixed message.
pub open spec fn error_reply(msg: &str) -> Resp {
    Resp::ErrorMsg(msg.spec_bytes())
}

/// The RESP encoding of a null bulk string.
pub const NULL_BULK_STRING: &'static str = "$-1\r\n";

/// The RESP encoding of a null array.
pub const NULL_ARRAY: &'static str = "*-1\r\n";

/// The RESP encoding of an empty array.
pub const EMPTY_ARRAY: &'static str = "*0\r\n";

} // verus!
