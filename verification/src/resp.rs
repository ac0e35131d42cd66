//! The RESP wire format: writing values out and reading them in.

use vstd::prelude::*;
use crate::text::{
    canonical_i64, decimal_text, i64_text, int_text, lemma_decimal_text_prefix,
    lemma_decimal_text_reads_back,
    lemma_int_text_parses_back, u64_text,
};
use crate::types::{lemma_array_view, resp_views, RedisValueRef, Resp};

verus! {

broadcast use vstd::std_specs::vec::axiom_vec_index_decreases;

/// The line terminator.
pub open spec fn crlf() -> Seq<u8> {
    seq![13u8, 10u8]
}

/// No carriage return among the bytes.
pub open spec fn has_no_cr(s: Seq<u8>) -> bool {
    forall|i: int| 0 <= i < s.len() ==> s[i] != 13
}

/// A type byte, then a body, then the line terminator.
pub open spec fn line(tag: u8, body: Seq<u8>) -> Seq<u8> {
    seq![tag] + body + crlf()
}

/// The RESP encoding of a value.
pub open spec fn encode(v: Resp) -> Seq<u8>
    decreases v,
{
    match v {
        Resp::Simple(s) => line(43, s),
        Resp::Error(s) => line(45, s),
        Resp::ErrorMsg(s) => line(45, s),
        Resp::Int(n) => line(58, int_text(n as int)),
        Resp::Bulk(b) => line(36, decimal_text(b.len())) + b + crlf(),
        Resp::NullBulk => line(36, int_text(-1)),
        Resp::Array(items) => line(42, decimal_text(items.len())) + encode_seq(items),
        Resp::NullArray => line(42, int_text(-1)),
    }
}

/// The encodings of values one after another.
pub open spec fn encode_seq(items: Seq<Resp>) -> Seq<u8>
    decreases items,
{
    if items.len() == 0 {
        Seq::empty()
    } else {
        encode_seq(items.drop_last()) + encode(items.last())
    }
}

fn push_bytes(out: &mut Vec<u8>, s: &[u8])
    ensures
        final(out)@ == old(out)@ + s@,
{
    let ghost start = out@;
    let mut i: usize = 0;
    while i < s.len()
        invariant
            i <= s@.len(),
            out@ == start + s@.take(i as int),
        decreases s@.len() - i,
    {
        out.push(s[i]);
        assert(s@.take(i + 1) =~= s@.take(i as int).push(s@[i as int]));
        i = i + 1;
    }
    assert(s@.take(i as int) =~= s@);
}

fn push_line(out: &mut Vec<u8>, tag: u8, body: &[u8])
    ensures
        final(out)@ == old(out)@ + line(tag, body@),
{
    let ghost start = out@;
    out.push(tag);
    push_bytes(out, body);
    out.push(13);
    out.push(10);
    assert(out@ =~= start + line(tag, body@));
}

/// Appends the RESP encoding of `v` to `out`.
pub fn encode_into(v: &RedisValueRef, out: &mut Vec<u8>)
    ensures
        final(out)@ == old(out)@ + encode(v@),
    decreases v,
{
    proof {
        reveal_with_fuel(<RedisValueRef as View>::view, 1);
    }
    let ghost start = out@;
    match v {
        RedisValueRef::SimpleString(s) => push_line(out, 43, s.as_slice()),
        RedisValueRef::Error(s) => push_line(out, 45, s.as_slice()),
        RedisValueRef::ErrorMsg(s) => push_line(out, 45, s.as_slice()),
        RedisValueRef::Int(n) => {
            let t = i64_text(*n);
            push_line(out, 58, t.as_slice());
        },
        RedisValueRef::BulkString(b) => {
            let t = u64_text(b.len() as u64);
            push_line(out, 36, t.as_slice());
            push_bytes(out, b.as_slice());
            out.push(13);
            out.push(10);
            assert(out@ =~= start + (line(36, decimal_text(b@.len())) + b@ + crlf()));
        },
        RedisValueRef::NullBulkString => {
            let t = i64_text(-1);
            push_line(out, 36, t.as_slice());
        },
        RedisValueRef::NullArray => {
            let t = i64_text(-1);
            push_line(out, 42, t.as_slice());
        },
        RedisValueRef::Array(items) => {
            let t = u64_text(items.len() as u64);
            push_line(out, 42, t.as_slice());
            let ghost header = out@;
            let ghost views = resp_views(items@);
            let mut i: usize = 0;
            assert(views.take(0) =~= Seq::<Resp>::empty());
            while i < items.len()
                invariant
                    *v == RedisValueRef::Array(*items),
                    views == resp_views(items@),
                    i <= items@.len(),
                    out@ == header + encode_seq(views.take(i as int)),
                decreases items@.len() - i,
            {
                proof {
                    assert(decreases_to!(*items => items@[i as int]));
                    assert(v->Array_0 == *items);
                    assert(decreases_to!(*v => v->Array_0));
                    assert(decreases_to!(v => items@[i as int]));
                }
                encode_into(&items[i], out);
                assert(views.take(i + 1).drop_last() =~= views.take(i as int));
                i = i + 1;
            }
            assert(views.take(i as int) =~= views);
            proof {
                lemma_array_view(*items);
            }
            assert(out@ =~= start + (line(42, decimal_text(views.len())) + encode_seq(views)));
        },
    }
}

/// The RESP encoding of `v`.
pub fn encode_value(v: &RedisValueRef) -> (out: Vec<u8>)
    ensures
        out@ == encode(v@),
{
    let mut out: Vec<u8> = Vec::new();
    encode_into(v, &mut out);
    assert(out@ =~= encode(v@));
    out
}

// ---------------------------------------------------------------------------
// Reading
// ---------------------------------------------------------------------------

/// A value that reading can give back: no error message of the server's own
/// (it reads back as a plain error), no carriage return inside a simple
/// string or error, and lengths that an `i64` holds.
pub open spec fn decodable(v: Resp) -> bool
    decreases v,
{
    match v {
        Resp::Simple(s) => has_no_cr(s),
        Resp::Error(s) => has_no_cr(s),
        Resp::ErrorMsg(_) => false,
        Resp::Bulk(b) => b.len() <= i64::MAX,
        Resp::Array(items) => items.len() <= i64::MAX && decodable_seq(items),
        _ => true,
    }
}

/// Every value of the sequence is `decodable`.
pub open spec fn decodable_seq(items: Seq<Resp>) -> bool
    decreases items,
{
    if items.len() == 0 {
        true
    } else {
        decodable_seq(items.drop_last()) && decodable(items.last())
    }
}

/// The type byte a value's encoding starts with.
pub open spec fn tag_of(v: Resp) -> u8 {
    match v {
        Resp::Simple(_) => 43,
        Resp::Error(_) => 45,
        Resp::ErrorMsg(_) => 45,
        Resp::Int(_) => 58,
        Resp::Bulk(_) => 36,
        Resp::NullBulk => 36,
        Resp::Array(_) => 42,
        Resp::NullArray => 42,
    }
}

proof fn lemma_encode_starts(v: Resp)
    ensures
        encode(v).len() >= 3,
        encode(v)[0] == tag_of(v),
{
    match v {
        Resp::Bulk(b) => {
            assert((line(36, decimal_text(b.len())) + b + crlf())[0] == 36);
        },
        Resp::Array(items) => {
            assert((line(42, decimal_text(items.len())) + encode_seq(items))[0] == 42);
        },
        _ => {},
    }
}

proof fn lemma_int_text_no_cr(n: int)
    ensures
        has_no_cr(int_text(n)),
        int_text(n).len() > 0,
{
    if n < 0 {
        lemma_decimal_text_reads_back((-n) as nat);
        let d = decimal_text((-n) as nat);
        assert forall|i: int| 0 <= i < int_text(n).len() implies int_text(n)[i] != 13 by {
            if i > 0 {
                assert(int_text(n)[i] == d[i - 1]);
            }
        }
    } else {
        lemma_decimal_text_reads_back(n as nat);
    }
}

proof fn lemma_int_text_injective(a: i64, b: i64)
    requires
        int_text(a as int) == int_text(b as int),
    ensures
        a == b,
{
    lemma_int_text_parses_back(a);
    lemma_int_text_parses_back(b);
}

proof fn lemma_encode_seq_split(xs: Seq<Resp>, k: int)
    requires
        0 <= k < xs.len(),
    ensures
        encode_seq(xs) == encode_seq(xs.take(k)) + encode(xs[k]) + encode_seq(xs.skip(k + 1)),
    decreases xs.len(),
{
    if k == xs.len() - 1 {
        assert(xs.drop_last() =~= xs.take(k));
        assert(xs.skip(k + 1) =~= Seq::<Resp>::empty());
        assert(encode_seq(xs.skip(k + 1)) == Seq::<u8>::empty());
        assert(encode_seq(xs) =~= encode_seq(xs.take(k)) + encode(xs[k]) + encode_seq(
            xs.skip(k + 1),
        ));
    } else {
        let d = xs.drop_last();
        lemma_encode_seq_split(d, k);
        assert(d.take(k) =~= xs.take(k));
        assert(xs.skip(k + 1).drop_last() =~= d.skip(k + 1));
        assert(xs.skip(k + 1).last() == xs.last());
        assert(encode_seq(xs) =~= encode_seq(xs.take(k)) + encode(xs[k]) + encode_seq(
            xs.skip(k + 1),
        ));
    }
}

proof fn lemma_decodable_seq_index(xs: Seq<Resp>, k: int)
    requires
        decodable_seq(xs),
        0 <= k <= xs.len(),
    ensures
        decodable_seq(xs.take(k)),
        k < xs.len() ==> decodable(xs[k]),
    decreases xs.len(),
{
    if k == xs.len() {
        assert(xs.take(k) =~= xs);
    } else {
        lemma_decodable_seq_index(xs.drop_last(), k);
        assert(xs.drop_last().take(k) =~= xs.take(k));
    }
}

/// The body of the first line of a value's encoding.
pub open spec fn line_body(x: Resp) -> Seq<u8> {
    match x {
        Resp::Simple(s) => s,
        Resp::Error(s) => s,
        Resp::ErrorMsg(s) => s,
        Resp::Int(n) => int_text(n as int),
        Resp::Bulk(b) => decimal_text(b.len()),
        Resp::NullBulk => int_text(-1),
        Resp::Array(xs) => decimal_text(xs.len()),
        Resp::NullArray => int_text(-1),
    }
}

/// What follows the first line of a value's encoding.
pub open spec fn line_tail(x: Resp) -> Seq<u8> {
    match x {
        Resp::Bulk(b) => b + crlf(),
        Resp::Array(xs) => encode_seq(xs),
        _ => Seq::empty(),
    }
}

proof fn lemma_encode_line(x: Resp)
    ensures
        encode(x) == line(tag_of(x), line_body(x)) + line_tail(x),
        decodable(x) ==> has_no_cr(line_body(x)),
{
    match x {
        Resp::Int(n) => lemma_int_text_no_cr(n as int),
        Resp::Bulk(b) => {
            lemma_int_text_no_cr(b.len() as int);
            assert(encode(x) =~= line(tag_of(x), line_body(x)) + line_tail(x));
        },
        Resp::NullBulk => lemma_int_text_no_cr(-1),
        Resp::Array(xs) => lemma_int_text_no_cr(xs.len() as int),
        Resp::NullArray => lemma_int_text_no_cr(-1),
        _ => {},
    }
    assert(encode(x) =~= line(tag_of(x), line_body(x)) + line_tail(x));
}

/// `a` is the start of `b`.
pub open spec fn prefix_of(a: Seq<u8>, b: Seq<u8>) -> bool {
    a.len() <= b.len() && b.take(a.len() as int) == a
}

/// Some value's encoding, followed by anything, starts with `buf`: more
/// bytes could make `buf` a value.
pub open spec fn starts_a_value(buf: Seq<u8>) -> bool {
    exists|x: Resp, more: Seq<u8>| decodable(x) && #[trigger] prefix_of(buf, encode(x) + more)
}

/// In a buffer that starts like a line with the given body, the first
/// carriage return from byte 1 on ends the body, and a line feed follows.
proof fn lemma_first_cr(buf: Seq<u8>, tag: u8, body: Seq<u8>, tail: Seq<u8>, i: int)
    requires
        prefix_of(buf, line(tag, body) + tail),
        has_no_cr(body),
        1 <= i < buf.len(),
        has_no_cr(buf.subrange(1, i)),
        buf[i] == 13,
    ensures
        i == 1 + body.len(),
        buf.subrange(1, i) == body,
        i + 1 < buf.len() ==> buf[i + 1] == 10,
{
    let f = line(tag, body) + tail;
    assert forall|j: int| 0 <= j < buf.len() implies buf[j] == f[j] by {
        assert(f.take(buf.len() as int)[j] == f[j]);
    }
    if i < 1 + body.len() {
        assert(f[i] == body[i - 1]);
    } else if i > 1 + body.len() {
        assert(buf.subrange(1, i)[body.len() as int] == buf[1 + body.len() as int]);
        assert(f[1 + body.len() as int] == 13);
    }
    assert(buf.subrange(1, i) =~= body);
}

/// Two lines with bodies free of carriage returns that start the same
/// bytes are the same line, with the same bytes after them.
proof fn lemma_line_unique(t: u8, b1: Seq<u8>, t1: Seq<u8>, b2: Seq<u8>, t2: Seq<u8>)
    requires
        line(t, b1) + t1 == line(t, b2) + t2,
        has_no_cr(b1),
        has_no_cr(b2),
    ensures
        b1 == b2,
        t1 == t2,
{
    let f = line(t, b1) + t1;
    assert(prefix_of(f, line(t, b2) + t2)) by {
        assert(f.take(f.len() as int) =~= f);
    }
    lemma_line_prefix(f, t, b1, t1);
    assert(f.subrange(1, 1 + b1.len() as int) =~= b1);
    lemma_first_cr(f, t, b2, t2, 1 + b1.len() as int);
    lemma_line_prefix(f, t, b2, t2);
}

proof fn lemma_encode_seq_first(xs: Seq<Resp>)
    requires
        xs.len() > 0,
    ensures
        encode_seq(xs) == encode(xs[0]) + encode_seq(xs.drop_first()),
{
    lemma_encode_seq_split(xs, 0);
    assert(xs.take(0) =~= Seq::<Resp>::empty());
    assert(xs.skip(1) =~= xs.drop_first());
    assert(encode_seq(xs.take(0)) == Seq::<u8>::empty());
    assert(encode_seq(xs) =~= encode(xs[0]) + encode_seq(xs.drop_first()));
}

proof fn lemma_decodable_seq_first(xs: Seq<Resp>)
    requires
        xs.len() > 0,
        decodable_seq(xs),
    ensures
        decodable(xs[0]),
        decodable_seq(xs.drop_first()),
    decreases xs.len(),
{
    lemma_decodable_seq_index(xs, 0);
    if xs.len() > 1 {
        lemma_decodable_seq_first(xs.drop_last());
        assert(xs.drop_last().drop_first() =~= xs.drop_first().drop_last());
        assert(xs.drop_first().last() == xs.last());
    } else {
        assert(xs.drop_first() =~= Seq::<Resp>::empty());
    }
}

/// Readable values are read back unambiguously: when one value's encoding
/// followed by some bytes is another's followed by some bytes, the values
/// are the same, and so are the bytes after them.
pub proof fn lemma_encoding_unique(v: Resp, x: Resp, r1: Seq<u8>, r2: Seq<u8>)
    requires
        decodable(v),
        decodable(x),
        encode(v) + r1 == encode(x) + r2,
    ensures
        v == x,
        r1 == r2,
    decreases v,
{
    lemma_encode_line(v);
    lemma_encode_line(x);
    lemma_tag_matches(encode(v) + r1, v, r1);
    lemma_tag_matches(encode(x) + r2, x, r2);
    let tv = line_tail(v) + r1;
    let tx = line_tail(x) + r2;
    assert(encode(v) + r1 =~= line(tag_of(v), line_body(v)) + tv);
    assert(encode(x) + r2 =~= line(tag_of(x), line_body(x)) + tx);
    lemma_line_unique(tag_of(v), line_body(v), tv, line_body(x), tx);
    match v {
        Resp::Int(n) => {
            if let Resp::Int(m) = x {
                lemma_int_text_injective(n, m);
            }
        },
        Resp::Bulk(b) => {
            match x {
                Resp::Bulk(c) => {
                    lemma_int_text_injective(b.len() as i64, c.len() as i64);
                    assert(b =~= tv.take(b.len() as int));
                    assert(c =~= tx.take(c.len() as int));
                    assert(r1 =~= tv.skip(b.len() as int + 2));
                    assert(r2 =~= tx.skip(c.len() as int + 2));
                },
                Resp::NullBulk => lemma_int_text_injective(b.len() as i64, -1i64),
                _ => {},
            }
        },
        Resp::NullBulk => {
            if let Resp::Bulk(c) = x {
                lemma_int_text_injective(c.len() as i64, -1i64);
            }
        },
        Resp::Array(xs) => {
            match x {
                Resp::Array(ys) => {
                    lemma_int_text_injective(xs.len() as i64, ys.len() as i64);
                    lemma_encoding_seq_unique(xs, ys, r1, r2);
                },
                Resp::NullArray => lemma_int_text_injective(xs.len() as i64, -1i64),
                _ => {},
            }
        },
        Resp::NullArray => {
            if let Resp::Array(ys) = x {
                lemma_int_text_injective(ys.len() as i64, -1i64);
            }
        },
        _ => {},
    }
}

proof fn lemma_encoding_seq_unique(xs: Seq<Resp>, ys: Seq<Resp>, r1: Seq<u8>, r2: Seq<u8>)
    requires
        decodable_seq(xs),
        decodable_seq(ys),
        xs.len() == ys.len(),
        encode_seq(xs) + r1 == encode_seq(ys) + r2,
    ensures
        xs == ys,
        r1 == r2,
    decreases xs,
{
    if xs.len() == 0 {
        assert(encode_seq(xs) == Seq::<u8>::empty());
        assert(encode_seq(ys) == Seq::<u8>::empty());
        assert(r1 =~= encode_seq(xs) + r1);
        assert(r2 =~= encode_seq(ys) + r2);
        assert(xs =~= ys);
    } else {
        lemma_encode_seq_first(xs);
        lemma_encode_seq_first(ys);
        lemma_decodable_seq_first(xs);
        lemma_decodable_seq_first(ys);
        let a1 = encode_seq(xs.drop_first()) + r1;
        let a2 = encode_seq(ys.drop_first()) + r2;
        assert(encode(xs[0]) + a1 =~= encode_seq(xs) + r1);
        assert(encode(ys[0]) + a2 =~= encode_seq(ys) + r2);
        lemma_encoding_unique(xs[0], ys[0], a1, a2);
        lemma_encoding_seq_unique(xs.drop_first(), ys.drop_first(), r1, r2);
        assert(xs =~= seq![xs[0]] + xs.drop_first());
        assert(ys =~= seq![ys[0]] + ys.drop_first());
    }
}

/// The outcome of reading one value from the front of a buffer.
#[derive(Debug)]
pub enum Decoded {
    /// The buffer holds the start of a value but not all of it.
    Incomplete,
    /// The buffer does not start with a value.
    Invalid,
    /// The value read and how many bytes it took.
    Value(RedisValueRef, usize),
}

enum LineRead {
    Incomplete,
    /// The first carriage return, at the position given, is followed by
    /// something other than a line feed.
    Invalid(usize),
    Line(usize),
}

fn find_cr(buf: &[u8], start: usize) -> (r: Option<usize>)
    requires
        start <= buf@.len(),
    ensures
        match r {
            Some(i) => start <= i < buf@.len() && buf@[i as int] == 13 && has_no_cr(
                buf@.subrange(start as int, i as int),
            ),
            None => has_no_cr(buf@.subrange(start as int, buf@.len() as int)),
        },
{
    let mut i: usize = start;
    while i < buf.len()
        invariant
            start <= i <= buf@.len(),
            has_no_cr(buf@.subrange(start as int, i as int)),
        decreases buf@.len() - i,
    {
        if buf[i] == 13 {
            return Some(i);
        }
        i = i + 1;
    }
    None
}

/// Reads the first line: its body runs from byte 1 to the first carriage
/// return, which a line feed must follow.
fn read_line(buf: &[u8]) -> (r: LineRead)
    requires
        buf@.len() >= 1,
    ensures
        r matches LineRead::Line(e) ==> 1 <= e && e + 2 <= buf@.len() && has_no_cr(
            buf@.subrange(1, e as int),
        ) && buf@[e as int] == 13 && buf@[e + 1] == 10,
        forall|e: int|
            1 <= e && e + 2 <= buf@.len() && has_no_cr(#[trigger] buf@.subrange(1, e))
                && buf@[e] == 13 && buf@[e + 1] == 10 ==> r == LineRead::Line(e as usize),
        r matches LineRead::Invalid(i) ==> 1 <= i && i + 1 < buf@.len() && has_no_cr(
            buf@.subrange(1, i as int),
        ) && buf@[i as int] == 13 && buf@[i + 1] != 10,
        r is Incomplete ==> has_no_cr(buf@.subrange(1, buf@.len() as int)) || (buf@[buf@.len()
            - 1] == 13 && has_no_cr(buf@.subrange(1, buf@.len() - 1))),
{
    match find_cr(buf, 1) {
        None => {
            proof {
                assert forall|e: int|
                    1 <= e && e + 2 <= buf@.len() && has_no_cr(#[trigger] buf@.subrange(1, e))
                        && buf@[e] == 13 && buf@[e + 1] == 10 implies false by {
                    assert(buf@.subrange(1, buf@.len() as int)[e - 1] == 13);
                }
            }
            LineRead::Incomplete
        },
        Some(i) => {
            proof {
                assert forall|e: int|
                    1 <= e && e + 2 <= buf@.len() && has_no_cr(#[trigger] buf@.subrange(1, e))
                        && buf@[e] == 13 && buf@[e + 1] == 10 implies e == i by {
                    if e < i {
                        assert(buf@.subrange(1, i as int)[e - 1] == 13);
                    } else if e > i {
                        assert(buf@.subrange(1, e)[i - 1] == 13);
                    }
                }
            }
            if i >= buf.len() - 1 {
                LineRead::Incomplete
            } else if buf[i + 1] != 10 {
                LineRead::Invalid(i)
            } else {
                LineRead::Line(i)
            }
        },
    }
}

/// The result is the value `x`, read from the first `n` bytes.
pub open spec fn decoded_as(r: Decoded, x: Resp, n: int) -> bool {
    r matches Decoded::Value(v, m) && v@ == x && m == n
}

/// What a result claims is so: a value read from the front of `buf` is
/// encoded there exactly, and reading gives back such values.
pub open spec fn decode_sound(buf: Seq<u8>, r: Decoded) -> bool {
    r matches Decoded::Value(v, n) ==> n <= buf.len() && buf.take(n as int) == encode(v@) && decodable(
        v@,
    )
}

proof fn lemma_line_prefix(buf: Seq<u8>, tag: u8, body: Seq<u8>, tail: Seq<u8>)
    requires
        buf == line(tag, body) + tail,
    ensures
        buf.len() == body.len() + 3 + tail.len(),
        buf[0] == tag,
        buf.subrange(1, 1 + body.len() as int) == body,
        buf[1 + body.len() as int] == 13,
        buf[2 + body.len() as int] == 10,
        buf.subrange(body.len() as int + 3, buf.len() as int) == tail,
{
    assert(buf.subrange(1, 1 + body.len() as int) =~= body);
    assert(buf.subrange(body.len() as int + 3, buf.len() as int) =~= tail);
}

proof fn lemma_tag_matches(buf: Seq<u8>, x: Resp, rest: Seq<u8>)
    requires
        buf == encode(x) + rest,
    ensures
        buf.len() >= 3,
        buf[0] == tag_of(x),
{
    lemma_encode_starts(x);
}

proof fn lemma_prefix_tag(buf: Seq<u8>, x: Resp, more: Seq<u8>)
    requires
        buf.len() >= 1,
        prefix_of(buf, encode(x) + more),
    ensures
        buf[0] == tag_of(x),
        prefix_of(buf, line(tag_of(x), line_body(x)) + (line_tail(x) + more)),
        decodable(x) ==> has_no_cr(line_body(x)),
{
    lemma_encode_starts(x);
    lemma_encode_line(x);
    assert((encode(x) + more).take(buf.len() as int)[0] == (encode(x) + more)[0]);
    assert(encode(x) + more =~= line(tag_of(x), line_body(x)) + (line_tail(x) + more));
}

/// The bytes from `p` on of a start of `b` are a start of `b` from `p` on.
proof fn lemma_prefix_skip(a: Seq<u8>, b: Seq<u8>, p: int)
    requires
        prefix_of(a, b),
        0 <= p <= a.len(),
    ensures
        prefix_of(a.subrange(p, a.len() as int), b.skip(p)),
{
    assert(b.skip(p).take(a.len() - p) =~= a.subrange(p, a.len() as int)) by {
        assert forall|j: int| 0 <= j < a.len() - p implies #[trigger] b.skip(p).take(a.len() - p)[j]
            == a[p + j] by {
            assert(b.take(a.len() as int)[p + j] == b[p + j]);
        }
    }
}

/// A whole buffer is a start of itself followed by anything.
proof fn lemma_prefix_whole(buf: Seq<u8>, x: Resp, rest: Seq<u8>)
    requires
        buf == encode(x) + rest,
    ensures
        prefix_of(buf, encode(x) + rest),
{
    assert((encode(x) + rest).take(buf.len() as int) =~= buf);
}

fn line_value(buf: &[u8], e: usize, tag: u8) -> (r: Decoded)
    requires
        1 <= e,
        e + 2 <= buf@.len(),
        has_no_cr(buf@.subrange(1, e as int)),
        buf@[e as int] == 13,
        buf@[e + 1] == 10,
        buf@[0] == tag,
        tag == 43 || tag == 45,
    ensures
        decode_sound(buf@, r),
        tag == 43 ==> decoded_as(r, Resp::Simple(buf@.subrange(1, e as int)), e + 2),
        tag == 45 ==> decoded_as(r, Resp::Error(buf@.subrange(1, e as int)), e + 2),
{
    proof {
        reveal_with_fuel(<RedisValueRef as View>::view, 1);
    }
    let _ = buf.len();
    let body = vstd::slice::slice_to_vec(vstd::slice::slice_subrange(buf, 1, e));
    let v = if tag == 43 {
        RedisValueRef::SimpleString(body)
    } else {
        RedisValueRef::Error(body)
    };
    assert(buf@.take(e + 2) =~= line(tag, buf@.subrange(1, e as int)));
    Decoded::Value(v, e + 2)
}

fn decode_bulk(buf: &[u8], e: usize, n: i64) -> (r: Decoded)
    requires
        1 <= e,
        e + 2 <= buf@.len(),
        buf@[0] == 36,
        buf@.subrange(1, e as int) == int_text(n as int),
        buf@[e as int] == 13,
        buf@[e + 1] == 10,
        n >= 0,
    ensures
        decode_sound(buf@, r),
        forall|b: Seq<u8>, rest: Seq<u8>|
            b.len() <= i64::MAX && buf@ == #[trigger] (encode(Resp::Bulk(b)) + rest) ==> decoded_as(
                r,
                Resp::Bulk(b),
                encode(Resp::Bulk(b)).len() as int,
            ),
        r is Invalid ==> !starts_a_value(buf@),
        r is Incomplete ==> starts_a_value(buf@),
{
    proof {
        reveal_with_fuel(<RedisValueRef as View>::view, 1);
        lemma_int_text_no_cr(n as int);
    }
    let avail: usize = buf.len() - (e + 2);
    assert forall|b: Seq<u8>, rest: Seq<u8>|
        b.len() <= i64::MAX && buf@ == #[trigger] (encode(Resp::Bulk(b)) + rest) implies b.len() == n
            && b.len() + 2 <= avail && buf@.subrange(e + 2, e + 2 + b.len()) == b && buf@[e + 2
            + b.len()] == 13 && buf@[e + 3 + b.len()] == 10 by {
        let d = decimal_text(b.len());
        lemma_int_text_no_cr(b.len() as int);
        assert(encode(Resp::Bulk(b)) + rest =~= line(36, d) + (b + crlf() + rest));
        lemma_line_prefix(buf@, 36, d, b + crlf() + rest);
        if e < 1 + d.len() as int {
            assert(buf@.subrange(1, 1 + d.len() as int)[e - 1] == buf@[e as int]);
        }
        if e > 1 + d.len() as int {
            assert(buf@.subrange(1, e as int)[d.len() as int] == buf@[1 + d.len() as int]);
        }
        assert(e == 1 + d.len() as int);
        lemma_int_text_injective(n, b.len() as i64);
        let tail = buf@.subrange(d.len() as int + 3, buf@.len() as int);
        assert(tail =~= b + crlf() + rest);
        assert(buf@.subrange(e + 2, e + 2 + b.len()) =~= tail.subrange(0, b.len() as int));
        assert(buf@[e + 2 + b.len()] == tail[b.len() as int]);
        assert(buf@[e + 3 + b.len()] == tail[b.len() as int + 1]);
    }
    let start = e + 2;
    if (n as u64) + 2 > avail as u64 {
        if (n as u64) + 1 == avail as u64 && buf[buf.len() - 1] != 13 {
            proof {
                lemma_no_value_after_payload(buf@, e as int, n);
            }
            return Decoded::Invalid;
        }
        proof {
            lemma_bulk_starts(buf@, e as int, n);
        }
        return Decoded::Incomplete;
    }
    let len = n as usize;
    if buf[start + len] != 13 || buf[start + len + 1] != 10 {
        proof {
            if starts_a_value(buf@) {
                let (x, more) = choose|x: Resp, more: Seq<u8>|
                    decodable(x) && #[trigger] prefix_of(buf@, encode(x) + more);
                lemma_prefix_tag(buf@, x, more);
                lemma_first_cr(buf@, 36, line_body(x), line_tail(x) + more, e as int);
                match x {
                    Resp::Bulk(b) => {
                        lemma_int_text_injective(n, b.len() as i64);
                        let f = line(36, line_body(x)) + (line_tail(x) + more);
                        assert(f =~= line(36, line_body(x)) + b + crlf() + more);
                        assert(f[start + len] == 13);
                        assert(f[start + len + 1] == 10);
                        assert(f.take(buf@.len() as int)[start + len] == f[start + len]);
                        assert(f.take(buf@.len() as int)[start + len + 1] == f[start + len + 1]);
                    },
                    Resp::NullBulk => lemma_int_text_injective(n, -1i64),
                    _ => {},
                }
                assert(false);
            }
        }
        return Decoded::Invalid;
    }
    let data = vstd::slice::slice_to_vec(vstd::slice::slice_subrange(buf, start, start + len));
    let ghost b = buf@.subrange(start as int, start + len);
    assert(buf@.take(start + len + 2) =~= line(36, decimal_text(b.len())) + b + crlf());
    Decoded::Value(RedisValueRef::BulkString(data), start + len + 2)
}

proof fn lemma_no_value_with_tag(buf: Seq<u8>)
    requires
        buf.len() >= 1,
        buf[0] != 43 && buf[0] != 45 && buf[0] != 58 && buf[0] != 36 && buf[0] != 42,
    ensures
        !starts_a_value(buf),
{
    if starts_a_value(buf) {
        let (x, more) = choose|x: Resp, more: Seq<u8>|
            decodable(x) && #[trigger] prefix_of(buf, encode(x) + more);
        lemma_prefix_tag(buf, x, more);
    }
}

proof fn lemma_no_value_with_line(buf: Seq<u8>, i: int)
    requires
        1 <= i,
        i + 1 < buf.len(),
        has_no_cr(buf.subrange(1, i)),
        buf[i] == 13,
        buf[i + 1] != 10,
    ensures
        !starts_a_value(buf),
{
    if starts_a_value(buf) {
        let (x, more) = choose|x: Resp, more: Seq<u8>|
            decodable(x) && #[trigger] prefix_of(buf, encode(x) + more);
        lemma_prefix_tag(buf, x, more);
        lemma_first_cr(buf, tag_of(x), line_body(x), line_tail(x) + more, i);
    }
}

proof fn lemma_no_value_with_header(buf: Seq<u8>, e: int)
    requires
        1 <= e,
        e + 1 < buf.len(),
        has_no_cr(buf.subrange(1, e)),
        buf[e] == 13,
        buf[0] == 58 || buf[0] == 36 || buf[0] == 42,
        forall|m: i64| buf.subrange(1, e) != #[trigger] int_text(m as int),
    ensures
        !starts_a_value(buf),
{
    if starts_a_value(buf) {
        let (x, more) = choose|x: Resp, more: Seq<u8>|
            decodable(x) && #[trigger] prefix_of(buf, encode(x) + more);
        lemma_prefix_tag(buf, x, more);
        lemma_first_cr(buf, tag_of(x), line_body(x), line_tail(x) + more, e);
        match x {
            Resp::Int(m) => assert(buf.subrange(1, e) != int_text(m as int)),
            Resp::Bulk(b) => assert(buf.subrange(1, e) != int_text((b.len() as i64) as int)),
            Resp::Array(xs) => assert(buf.subrange(1, e) != int_text((xs.len() as i64) as int)),
            Resp::NullBulk => assert(buf.subrange(1, e) != int_text((-1i64) as int)),
            Resp::NullArray => assert(buf.subrange(1, e) != int_text((-1i64) as int)),
            _ => {},
        }
    }
}

/// A start of an integer's text, other than nothing or a lone minus sign,
/// is itself the text of an integer: of one not below zero when the first
/// is not, and of -1 when the first is -1.
proof fn lemma_int_text_prefix(m: i64, q: Seq<u8>) -> (w: i64)
    requires
        prefix_of(q, int_text(m as int)),
        q.len() > 0,
        q != seq![45u8],
    ensures
        q == int_text(w as int),
        m >= 0 ==> w >= 0,
        m == -1 ==> w == -1,
{
    let t = int_text(m as int);
    if m >= 0 {
        let k = lemma_decimal_text_prefix(m as nat, q.len() as int);
        k as i64
    } else {
        let a = (-(m as int)) as nat;
        assert(q[0] == 45) by {
            assert(t.take(q.len() as int)[0] == t[0]);
        }
        if q.len() == 1 {
            assert(q =~= seq![45u8]);
        }
        let k = lemma_decimal_text_prefix(a, q.len() - 1);
        assert(q.drop_first() =~= decimal_text(a).take(q.len() - 1)) by {
            assert forall|j: int| 0 <= j < q.len() - 1 implies #[trigger] q.drop_first()[j]
                == decimal_text(a).take(q.len() - 1)[j] by {
                assert(t.take(q.len() as int)[j + 1] == t[j + 1]);
            }
        }
        let w = (-(k as int)) as i64;
        assert(int_text(w as int) =~= q);
        w
    }
}

/// A buffer that starts like a line and holds no carriage return after its
/// type byte holds a start of the line's body there.
proof fn lemma_open_line(buf: Seq<u8>, tag: u8, body: Seq<u8>, tail: Seq<u8>)
    requires
        buf.len() >= 1,
        prefix_of(buf, line(tag, body) + tail),
        has_no_cr(body),
        has_no_cr(buf.subrange(1, buf.len() as int)),
    ensures
        prefix_of(buf.subrange(1, buf.len() as int), body),
{
    let f = line(tag, body) + tail;
    let q = buf.subrange(1, buf.len() as int);
    assert forall|j: int| 0 <= j < buf.len() implies buf[j] == f[j] by {
        assert(f.take(buf.len() as int)[j] == f[j]);
    }
    if q.len() > body.len() {
        assert(q[body.len() as int] == buf[1 + body.len() as int]);
        assert(f[1 + body.len() as int] == 13);
    }
    assert(body.take(q.len() as int) =~= q) by {
        assert forall|j: int| 0 <= j < q.len() implies #[trigger] body.take(q.len() as int)[j]
            == q[j] by {
            assert(q[j] == buf[1 + j]);
            assert(f[1 + j] == body[j]);
        }
    }
}

/// The first line of an integer, a bulk string or an array holds an integer.
proof fn lemma_header_body(x: Resp) -> (m: i64)
    requires
        decodable(x),
        tag_of(x) == 58 || tag_of(x) == 36 || tag_of(x) == 42,
    ensures
        line_body(x) == int_text(m as int),
        tag_of(x) != 58 ==> m >= -1,
{
    match x {
        Resp::Int(n) => n,
        Resp::Bulk(b) => b.len() as i64,
        Resp::Array(xs) => xs.len() as i64,
        _ => -1i64,
    }
}

/// `n` zero bytes.
spec fn zero_bytes(n: nat) -> Seq<u8> {
    Seq::new(n, |i: int| 0u8)
}

/// `n` empty simple strings.
spec fn empty_strings(n: nat) -> Seq<Resp> {
    Seq::new(n, |i: int| Resp::Simple(Seq::empty()))
}

proof fn lemma_decodable_seq_all(xs: Seq<Resp>)
    ensures
        decodable_seq(xs) <==> forall|i: int| 0 <= i < xs.len() ==> decodable(#[trigger] xs[i]),
    decreases xs.len(),
{
    if xs.len() > 0 {
        let d = xs.drop_last();
        lemma_decodable_seq_all(d);
        if forall|i: int| 0 <= i < xs.len() ==> decodable(#[trigger] xs[i]) {
            assert forall|i: int| 0 <= i < d.len() implies decodable(#[trigger] d[i]) by {
                assert(d[i] == xs[i]);
            }
            assert(decodable(xs[xs.len() - 1]));
        }
        if decodable_seq(xs) {
            assert forall|i: int| 0 <= i < xs.len() implies decodable(#[trigger] xs[i]) by {
                if i < d.len() {
                    assert(d[i] == xs[i]);
                }
            }
        }
    }
}

proof fn lemma_encode_seq_append(a: Seq<Resp>, b: Seq<Resp>)
    ensures
        encode_seq(a + b) == encode_seq(a) + encode_seq(b),
    decreases b.len(),
{
    if b.len() == 0 {
        assert(a + b =~= a);
        assert(encode_seq(b) == Seq::<u8>::empty());
        assert(encode_seq(a) + encode_seq(b) =~= encode_seq(a));
    } else {
        lemma_encode_seq_append(a, b.drop_last());
        assert((a + b).drop_last() =~= a + b.drop_last());
        assert((a + b).last() == b.last());
        assert(encode_seq(a + b) =~= encode_seq(a) + encode_seq(b));
    }
}

/// The value whose first line has the integer `w` for body: that integer,
/// a null for -1, or otherwise a bulk string or an array of that length.
spec fn header_value(tag: u8, w: i64) -> Resp {
    if tag == 58 {
        Resp::Int(w)
    } else if w == -1 {
        if tag == 36 {
            Resp::NullBulk
        } else {
            Resp::NullArray
        }
    } else if tag == 36 {
        Resp::Bulk(zero_bytes(w as nat))
    } else {
        Resp::Array(empty_strings(w as nat))
    }
}

proof fn lemma_header_value(tag: u8, w: i64)
    requires
        tag == 58 || tag == 36 || tag == 42,
        tag != 58 ==> w >= -1,
    ensures
        decodable(header_value(tag, w)),
        tag_of(header_value(tag, w)) == tag,
        line_body(header_value(tag, w)) == int_text(w as int),
{
    if tag == 42 && w >= 0 {
        lemma_decodable_seq_all(empty_strings(w as nat));
    }
}

/// A type byte and a start of a line's body, or the whole body and its
/// carriage return, start a value.
proof fn lemma_starts_line(buf: Seq<u8>, x: Resp)
    requires
        decodable(x),
        buf.len() >= 1,
        buf[0] == tag_of(x),
        prefix_of(buf.subrange(1, buf.len() as int), line_body(x)) || (buf.subrange(
            1,
            buf.len() - 1,
        ) == line_body(x) && buf[buf.len() - 1] == 13),
    ensures
        starts_a_value(buf),
{
    lemma_encode_line(x);
    let body = line_body(x);
    let f = encode(x) + Seq::<u8>::empty();
    assert(f =~= line(tag_of(x), body) + line_tail(x));
    assert(f.take(buf.len() as int) =~= buf) by {
        assert forall|j: int| 0 <= j < buf.len() implies #[trigger] f.take(buf.len() as int)[j]
            == buf[j] by {
            if j > 0 {
                if prefix_of(buf.subrange(1, buf.len() as int), body) {
                    assert(buf.subrange(1, buf.len() as int)[j - 1] == buf[j]);
                    assert(body.take(buf.len() - 1)[j - 1] == body[j - 1]);
                } else if j < buf.len() - 1 {
                    assert(buf.subrange(1, buf.len() - 1)[j - 1] == buf[j]);
                }
            }
        }
    }
    assert(prefix_of(buf, encode(x) + Seq::<u8>::empty()));
}

/// A bulk string's header with less than the whole payload and its line
/// feed starts a value, when the byte after the payload, if there, is a
/// carriage return.
proof fn lemma_bulk_starts(buf: Seq<u8>, e: int, n: i64)
    requires
        1 <= e,
        e + 2 <= buf.len(),
        buf[0] == 36,
        buf.subrange(1, e) == int_text(n as int),
        buf[e] == 13,
        buf[e + 1] == 10,
        n >= 0,
        buf.len() < e + 2 + n + 2,
        buf.len() == e + 2 + n + 1 ==> buf[e + 2 + n] == 13,
    ensures
        starts_a_value(buf),
{
    let start = e + 2;
    let a = buf.len() - start;
    let b = if a <= n {
        buf.subrange(start, buf.len() as int) + zero_bytes((n - a) as nat)
    } else {
        buf.subrange(start, start + n)
    };
    assert(b.len() == n);
    let x = Resp::Bulk(b);
    let f = encode(x) + Seq::<u8>::empty();
    assert(f =~= seq![36u8] + int_text(n as int) + crlf() + b + crlf());
    assert(f.take(buf.len() as int) =~= buf) by {
        assert forall|j: int| 0 <= j < buf.len() implies #[trigger] f.take(buf.len() as int)[j]
            == buf[j] by {
            if 1 <= j < e {
                assert(buf.subrange(1, e)[j - 1] == buf[j]);
            } else if start <= j < start + n {
                if a <= n {
                    assert(b[j - start] == buf.subrange(start, buf.len() as int)[j - start]);
                } else {
                    assert(b[j - start] == buf.subrange(start, start + n)[j - start]);
                }
            }
        }
    }
    assert(prefix_of(buf, encode(x) + Seq::<u8>::empty()));
}

/// A bulk string's header and payload followed by a byte other than a
/// carriage return start no value.
proof fn lemma_no_value_after_payload(buf: Seq<u8>, e: int, n: i64)
    requires
        1 <= e,
        e + 2 <= buf.len(),
        buf[0] == 36,
        buf.subrange(1, e) == int_text(n as int),
        buf[e] == 13,
        buf[e + 1] == 10,
        n >= 0,
        buf.len() == e + 2 + n + 1,
        buf[e + 2 + n] != 13,
    ensures
        !starts_a_value(buf),
{
    lemma_int_text_no_cr(n as int);
    if starts_a_value(buf) {
        let (x, more) = choose|x: Resp, more: Seq<u8>|
            decodable(x) && #[trigger] prefix_of(buf, encode(x) + more);
        lemma_prefix_tag(buf, x, more);
        lemma_first_cr(buf, 36, line_body(x), line_tail(x) + more, e);
        match x {
            Resp::Bulk(b) => {
                lemma_int_text_injective(n, b.len() as i64);
                let f = line(36, line_body(x)) + (line_tail(x) + more);
                assert(f =~= line(36, line_body(x)) + b + crlf() + more);
                assert(f[e + 2 + n] == 13);
                assert(f.take(buf.len() as int)[e + 2 + n] == f[e + 2 + n]);
            },
            Resp::NullBulk => lemma_int_text_injective(n, -1i64),
            _ => {},
        }
    }
}

/// A start of a value that no whole value starts falls short of that value.
proof fn lemma_unfinished_value(sub: Seq<u8>, x: Resp, more: Seq<u8>)
    requires
        decodable(x),
        prefix_of(sub, encode(x) + more),
        forall|y: Resp, rest: Seq<u8>| decodable(y) ==> sub != #[trigger] (encode(y) + rest),
    ensures
        prefix_of(sub, encode(x)),
{
    let t = encode(x) + more;
    let l = encode(x).len();
    if sub.len() >= l {
        assert(sub =~= encode(x) + sub.skip(l as int)) by {
            assert forall|j: int| 0 <= j < l implies sub[j] == encode(x)[j] by {
                assert(t.take(sub.len() as int)[j] == t[j]);
            }
        }
    }
    assert(encode(x).take(sub.len() as int) =~= sub) by {
        assert forall|j: int| 0 <= j < sub.len() implies #[trigger] encode(x).take(
            sub.len() as int,
        )[j] == sub[j] by {
            assert(t.take(sub.len() as int)[j] == t[j]);
        }
    }
}

/// An array's header and some of its elements, then the start of one more,
/// start a value.
proof fn lemma_array_starts(
    buf: Seq<u8>,
    e: int,
    n: i64,
    p: int,
    vs: Seq<Resp>,
    x: Resp,
)
    requires
        array_header(buf, e, n),
        e + 2 <= p <= buf.len(),
        buf.subrange(e + 2, p) == encode_seq(vs),
        decodable_seq(vs),
        vs.len() < n,
        decodable(x),
        prefix_of(buf.subrange(p, buf.len() as int), encode(x)),
    ensures
        starts_a_value(buf),
{
    let fill = empty_strings((n - vs.len() - 1) as nat);
    let ys = vs + seq![x] + fill;
    lemma_decodable_seq_all(vs);
    lemma_decodable_seq_all(fill);
    lemma_decodable_seq_all(ys);
    assert forall|i: int| 0 <= i < ys.len() implies decodable(#[trigger] ys[i]) by {
        if i < vs.len() {
            assert(ys[i] == vs[i]);
        } else if i > vs.len() {
            assert(ys[i] == fill[i - vs.len() - 1]);
        }
    }
    let arr = Resp::Array(ys);
    assert(decodable(arr));
    lemma_encode_seq_append(vs + seq![x], fill);
    lemma_encode_seq_append(vs, seq![x]);
    assert(seq![x].drop_last() =~= Seq::<Resp>::empty());
    assert(encode_seq(Seq::<Resp>::empty()) == Seq::<u8>::empty());
    assert(seq![x].last() == x);
    assert(encode_seq(seq![x]) =~= encode(x));
    let hd = line(42, int_text(n as int));
    let ev = encode_seq(vs);
    let ex = encode(x);
    let sub = buf.subrange(p, buf.len() as int);
    assert(buf =~= hd + ev + sub) by {
        assert(buf.subrange(1, e) == int_text(n as int));
        assert forall|j: int| 0 <= j < buf.len() implies buf[j] == (hd + ev + sub)[j] by {
            if 1 <= j < e {
                assert(buf.subrange(1, e)[j - 1] == buf[j]);
            } else if e + 2 <= j < p {
                assert(buf.subrange(e + 2, p)[j - e - 2] == buf[j]);
            } else if j >= p {
                assert(sub[j - p] == buf[j]);
            }
        }
    }
    let f = encode(arr) + Seq::<u8>::empty();
    assert(f =~= hd + ev + ex + encode_seq(fill));
    assert(f.take(buf.len() as int) =~= buf) by {
        assert forall|j: int| 0 <= j < buf.len() implies #[trigger] f.take(buf.len() as int)[j]
            == buf[j] by {
            if j >= hd.len() + ev.len() {
                let i = j - hd.len() - ev.len();
                assert(ex.take(sub.len() as int)[i] == ex[i]);
            }
        }
    }
    assert(prefix_of(buf, encode(arr) + Seq::<u8>::empty()));
}

/// The verdict on a buffer whose first line is not finished: the start of
/// a value, or not.
fn open_line(buf: &[u8], tag: u8) -> (r: Decoded)
    requires
        buf@.len() >= 1,
        buf@[0] == tag,
        tag == 43 || tag == 45 || tag == 58 || tag == 36 || tag == 42,
        has_no_cr(buf@.subrange(1, buf@.len() as int)) || (buf@[buf@.len() - 1] == 13
            && has_no_cr(buf@.subrange(1, buf@.len() - 1))),
    ensures
        r is Incomplete || r is Invalid,
        r is Incomplete ==> starts_a_value(buf@),
        r is Invalid ==> !starts_a_value(buf@),
{
    let len = buf.len();
    let closed: bool = buf[len - 1] == 13;
    let end: usize = if closed {
        len - 1
    } else {
        len
    };
    proof {
        if !closed && len > 1 {
            assert(buf@.subrange(1, len as int)[len - 2] == buf@[len - 1]);
        }
    }
    if tag == 43 || tag == 45 {
        proof {
            let body = buf@.subrange(1, end as int);
            let x = if tag == 43 {
                Resp::Simple(body)
            } else {
                Resp::Error(body)
            };
            if !closed {
                assert(body.take(body.len() as int) =~= body);
            }
            lemma_starts_line(buf@, x);
        }
        return Decoded::Incomplete;
    }
    let body = vstd::slice::slice_subrange(buf, 1, end);
    let short = !closed && (body.len() == 0 || (body.len() == 1 && body[0] == 45));
    let parsed: Option<i64> = if short {
        None
    } else {
        canonical_i64(body)
    };
    let ok = short || match parsed {
        Some(w) => tag == 58 || w >= -1,
        None => false,
    };
    proof {
        if short {
            lemma_header_value(tag, -1i64);
            let x = header_value(tag, -1i64);
            assert(int_text(-1) =~= seq![45u8, 49u8]) by {
                assert(decimal_text(1) =~= seq![49u8]);
            }
            assert(int_text(-1).take(body@.len() as int) =~= body@);
            lemma_starts_line(buf@, x);
        } else if ok {
            let w = parsed->Some_0;
            lemma_header_value(tag, w);
            let x = header_value(tag, w);
            if !closed {
                assert(body@.take(body@.len() as int) =~= body@);
            }
            lemma_starts_line(buf@, x);
        } else if starts_a_value(buf@) {
            let (x, more) = choose|x: Resp, more: Seq<u8>|
                decodable(x) && #[trigger] prefix_of(buf@, encode(x) + more);
            lemma_prefix_tag(buf@, x, more);
            let mx = lemma_header_body(x);
            lemma_int_text_no_cr(mx as int);
            let wx = if closed {
                lemma_first_cr(buf@, tag, line_body(x), line_tail(x) + more, len - 1);
                assert(body@ == int_text(mx as int));
                mx
            } else {
                lemma_open_line(buf@, tag, line_body(x), line_tail(x) + more);
                if body@.len() == 1 && body@[0] == 45 {
                    assert(body@ =~= seq![45u8]);
                }
                lemma_int_text_prefix(mx, body@)
            };
            assert(body@ == int_text(wx as int));
            if let Some(w) = parsed {
                lemma_int_text_injective(w, wx);
            }
            assert(false);
        }
    }
    if ok {
        Decoded::Incomplete
    } else {
        Decoded::Invalid
    }
}

proof fn lemma_no_value_with_length(buf: Seq<u8>, e: int, n: i64)
    requires
        1 <= e,
        e + 1 < buf.len(),
        buf.subrange(1, e) == int_text(n as int),
        buf[e] == 13,
        buf[0] == 36 || buf[0] == 42,
        n < -1,
    ensures
        !starts_a_value(buf),
{
    lemma_int_text_no_cr(n as int);
    if starts_a_value(buf) {
        let (x, more) = choose|x: Resp, more: Seq<u8>|
            decodable(x) && #[trigger] prefix_of(buf, encode(x) + more);
        lemma_prefix_tag(buf, x, more);
        lemma_first_cr(buf, tag_of(x), line_body(x), line_tail(x) + more, e);
        match x {
            Resp::Bulk(b) => lemma_int_text_injective(n, b.len() as i64),
            Resp::Array(xs) => lemma_int_text_injective(n, xs.len() as i64),
            Resp::NullBulk => lemma_int_text_injective(n, -1i64),
            Resp::NullArray => lemma_int_text_injective(n, -1i64),
            _ => {},
        }
    }
}

/// Reads one RESP value from the front of `buf`.  A value read is encoded
/// exactly at the front of `buf`, and a buffer that starts with the
/// encoding of a value gives that value back.  Otherwise the buffer is
/// incomplete when more bytes could still make it start with a value, and
/// invalid when none could.
pub fn decode(buf: &[u8]) -> (r: Decoded)
    ensures
        decode_sound(buf@, r),
        forall|x: Resp, rest: Seq<u8>|
            decodable(x) && buf@ == #[trigger] (encode(x) + rest) ==> decoded_as(
                r,
                x,
                encode(x).len() as int,
            ),
        r is Invalid ==> !starts_a_value(buf@),
        r is Incomplete ==> starts_a_value(buf@),
    decreases buf@.len(), 1int,
{
    if buf.len() == 0 {
        proof {
            assert forall|x: Resp, rest: Seq<u8>|
                decodable(x) && buf@ == #[trigger] (encode(x) + rest) implies false by {
                lemma_tag_matches(buf@, x, rest);
            }
            let x = Resp::Simple(Seq::empty());
            assert((encode(x) + Seq::<u8>::empty()).take(0) =~= buf@);
            assert(prefix_of(buf@, encode(x) + Seq::<u8>::empty()));
        }
        return Decoded::Incomplete;
    }
    let tag = buf[0];
    if tag != 43 && tag != 45 && tag != 58 && tag != 36 && tag != 42 {
        proof {
            assert forall|x: Resp, rest: Seq<u8>|
                decodable(x) && buf@ == #[trigger] (encode(x) + rest) implies false by {
                lemma_tag_matches(buf@, x, rest);
            }
            lemma_no_value_with_tag(buf@);
        }
        return Decoded::Invalid;
    }
    let lr = read_line(buf);
    proof {
        assert forall|x: Resp, rest: Seq<u8>|
            decodable(x) && buf@ == #[trigger] (encode(x) + rest) implies lr matches LineRead::Line(
                e,
            ) && (match x {
                Resp::Simple(s) => e == 1 + s.len() && buf@.subrange(1, e as int) == s,
                Resp::Error(s) => e == 1 + s.len() && buf@.subrange(1, e as int) == s,
                Resp::Int(n) => buf@.subrange(1, e as int) == int_text(n as int),
                Resp::Bulk(b) => buf@.subrange(1, e as int) == int_text(b.len() as int),
                Resp::NullBulk => buf@.subrange(1, e as int) == int_text(-1),
                Resp::Array(xs) => buf@.subrange(1, e as int) == int_text(xs.len() as int),
                Resp::NullArray => buf@.subrange(1, e as int) == int_text(-1),
                Resp::ErrorMsg(_) => false,
            }) by {
            let (body, tail) = match x {
                Resp::Simple(s) => (s, rest),
                Resp::Error(s) => (s, rest),
                Resp::Int(n) => (int_text(n as int), rest),
                Resp::Bulk(b) => (decimal_text(b.len()), b + crlf() + rest),
                Resp::NullBulk => (int_text(-1), rest),
                Resp::Array(xs) => (decimal_text(xs.len()), encode_seq(xs) + rest),
                Resp::NullArray => (int_text(-1), rest),
                Resp::ErrorMsg(s) => (s, rest),
            };
            assert(encode(x) + rest =~= line(tag_of(x), body) + tail);
            match x {
                Resp::Int(n) => lemma_int_text_no_cr(n as int),
                Resp::Bulk(b) => lemma_int_text_no_cr(b.len() as int),
                Resp::NullBulk => lemma_int_text_no_cr(-1),
                Resp::Array(xs) => lemma_int_text_no_cr(xs.len() as int),
                Resp::NullArray => lemma_int_text_no_cr(-1),
                _ => {},
            }
            lemma_line_prefix(buf@, tag_of(x), body, tail);
            assert(has_no_cr(buf@.subrange(1, 1 + body.len() as int)));
        }
    }
    let e = match lr {
        LineRead::Line(e) => e,
        LineRead::Incomplete => return open_line(buf, tag),
        LineRead::Invalid(i) => {
            proof {
                lemma_no_value_with_line(buf@, i as int);
            }
            return Decoded::Invalid;
        },
    };
    if tag == 43 || tag == 45 {
        let r = line_value(buf, e, tag);
        proof {
            assert forall|x: Resp, rest: Seq<u8>|
                decodable(x) && buf@ == #[trigger] (encode(x) + rest) implies decoded_as(
                    r,
                    x,
                    encode(x).len() as int,
                ) by {
                lemma_tag_matches(buf@, x, rest);
            }
        }
        return r;
    }
    let body = vstd::slice::slice_subrange(buf, 1, e);
    let n = match canonical_i64(body) {
        Some(n) => n,
        None => {
            proof {
                assert forall|x: Resp, rest: Seq<u8>|
                    decodable(x) && buf@ == #[trigger] (encode(x) + rest) implies false by {
                    lemma_tag_matches(buf@, x, rest);
                    match x {
                        Resp::Bulk(b) => assert(body@ != int_text((b.len() as i64) as int)),
                        Resp::Array(xs) => assert(body@ != int_text((xs.len() as i64) as int)),
                        Resp::NullBulk => assert(body@ != int_text((-1i64) as int)),
                        Resp::NullArray => assert(body@ != int_text((-1i64) as int)),
                        _ => {},
                    }
                }
                lemma_no_value_with_header(buf@, e as int);
            }
            return Decoded::Invalid;
        },
    };
    if tag == 58 {
        proof {
            reveal_with_fuel(<RedisValueRef as View>::view, 1);
            assert(buf@.take(e + 2) =~= line(58, int_text(n as int)));
            assert forall|x: Resp, rest: Seq<u8>|
                decodable(x) && buf@ == #[trigger] (encode(x) + rest) implies decoded_as(
                    Decoded::Value(RedisValueRef::Int(n), (e + 2) as usize),
                    x,
                    encode(x).len() as int,
                ) by {
                lemma_tag_matches(buf@, x, rest);
                if let Resp::Int(m) = x {
                    lemma_int_text_injective(n, m);
                    lemma_int_text_no_cr(m as int);
                    assert(encode(x) + rest =~= line(58, int_text(m as int)) + rest);
                    lemma_line_prefix(buf@, 58, int_text(m as int), rest);
                }
            }
        }
        return Decoded::Value(RedisValueRef::Int(n), e + 2);
    }
    if n == -1 {
        let v = if tag == 36 {
            RedisValueRef::NullBulkString
        } else {
            RedisValueRef::NullArray
        };
        proof {
            reveal_with_fuel(<RedisValueRef as View>::view, 1);
            assert(buf@.take(e + 2) =~= line(tag, int_text(-1)));
            assert forall|x: Resp, rest: Seq<u8>|
                decodable(x) && buf@ == #[trigger] (encode(x) + rest) implies decoded_as(
                    Decoded::Value(v, (e + 2) as usize),
                    x,
                    encode(x).len() as int,
                ) by {
                lemma_tag_matches(buf@, x, rest);
                lemma_int_text_no_cr(-1);
                match x {
                    Resp::Bulk(b) => lemma_int_text_injective(-1i64, b.len() as i64),
                    Resp::Array(xs) => lemma_int_text_injective(-1i64, xs.len() as i64),
                    _ => {},
                }
                assert(encode(x) + rest =~= line(tag, int_text(-1)) + rest);
                lemma_line_prefix(buf@, tag, int_text(-1), rest);
            }
        }
        return Decoded::Value(v, e + 2);
    }
    if n < 0 {
        proof {
            assert forall|x: Resp, rest: Seq<u8>|
                decodable(x) && buf@ == #[trigger] (encode(x) + rest) implies false by {
                lemma_tag_matches(buf@, x, rest);
                match x {
                    Resp::Bulk(b) => lemma_int_text_injective(n, b.len() as i64),
                    Resp::Array(xs) => lemma_int_text_injective(n, xs.len() as i64),
                    Resp::NullBulk => lemma_int_text_injective(n, -1i64),
                    Resp::NullArray => lemma_int_text_injective(n, -1i64),
                    _ => {},
                }
            }
            lemma_no_value_with_length(buf@, e as int, n);
        }
        return Decoded::Invalid;
    }
    if tag == 36 {
        let r = decode_bulk(buf, e, n);
        proof {
            assert forall|x: Resp, rest: Seq<u8>|
                decodable(x) && buf@ == #[trigger] (encode(x) + rest) implies decoded_as(
                    r,
                    x,
                    encode(x).len() as int,
                ) by {
                lemma_tag_matches(buf@, x, rest);
                if x is NullBulk {
                    lemma_int_text_injective(n, -1i64);
                }
            }
        }
        return r;
    }
    let r = decode_array(buf, e, n);
    proof {
        assert forall|x: Resp, rest: Seq<u8>|
            decodable(x) && buf@ == #[trigger] (encode(x) + rest) implies decoded_as(
                r,
                x,
                encode(x).len() as int,
            ) by {
            lemma_tag_matches(buf@, x, rest);
            if x is NullArray {
                lemma_int_text_injective(n, -1i64);
            }
        }
    }
    r
}

/// The header facts of an array: its count line, then the elements.
pub open spec fn array_header(buf: Seq<u8>, e: int, n: i64) -> bool {
    &&& 1 <= e
    &&& e + 2 <= buf.len()
    &&& buf[0] == 42
    &&& buf.subrange(1, e) == int_text(n as int)
    &&& buf[e] == 13
    &&& buf[e + 1] == 10
    &&& n >= 0
}

proof fn lemma_array_header(buf: Seq<u8>, e: int, n: i64, x: Resp, more: Seq<u8>)
    requires
        array_header(buf, e, n),
        decodable(x),
        prefix_of(buf, encode(x) + more),
    ensures
        x matches Resp::Array(xs) && xs.len() == n && e == 1 + decimal_text(xs.len()).len()
            && prefix_of(buf.subrange(e + 2, buf.len() as int), encode_seq(xs) + more),
{
    lemma_int_text_no_cr(n as int);
    lemma_prefix_tag(buf, x, more);
    let f = line(tag_of(x), line_body(x)) + (line_tail(x) + more);
    lemma_first_cr(buf, tag_of(x), line_body(x), line_tail(x) + more, e);
    match x {
        Resp::Array(xs) => {
            lemma_int_text_injective(n, xs.len() as i64);
            lemma_prefix_skip(buf, f, e + 2);
            assert(f.skip(e + 2) =~= encode_seq(xs) + more);
        },
        Resp::NullArray => lemma_int_text_injective(n, -1i64),
        _ => {},
    }
}

proof fn lemma_array_step(buf: Seq<u8>, h: int, p: int, xs: Seq<Resp>, more: Seq<u8>, k: int)
    requires
        0 <= h <= p <= buf.len(),
        prefix_of(buf.subrange(h, buf.len() as int), encode_seq(xs) + more),
        0 <= k < xs.len(),
        p == h + encode_seq(xs.take(k)).len(),
    ensures
        prefix_of(
            buf.subrange(p, buf.len() as int),
            encode(xs[k]) + (encode_seq(xs.skip(k + 1)) + more),
        ),
{
    let b = buf.subrange(h, buf.len() as int);
    let q = p - h;
    lemma_encode_seq_split(xs, k);
    let s = encode_seq(xs) + more;
    lemma_prefix_skip(b, s, q);
    assert(b.subrange(q, b.len() as int) =~= buf.subrange(p, buf.len() as int));
    assert(s.skip(q) =~= encode(xs[k]) + (encode_seq(xs.skip(k + 1)) + more));
}

proof fn lemma_value_is_element(sub: Seq<u8>, v: Resp, m: int, x: Resp, y: Seq<u8>)
    requires
        0 <= m <= sub.len(),
        sub.take(m) == encode(v),
        decodable(v),
        decodable(x),
        prefix_of(sub, encode(x) + y),
    ensures
        v == x,
        m == encode(x).len(),
{
    let t = encode(x) + y;
    assert(t.take(m) =~= sub.take(m)) by {
        assert forall|j: int| 0 <= j < m implies #[trigger] t.take(m)[j] == sub.take(m)[j] by {
            assert(t.take(sub.len() as int)[j] == t[j]);
        }
    }
    assert(t =~= encode(v) + t.skip(m));
    lemma_encoding_unique(v, x, t.skip(m), y);
}

proof fn lemma_array_element(
    buf: Seq<u8>,
    e: int,
    n: i64,
    p: int,
    xs: Seq<Resp>,
    rest: Seq<u8>,
    k: int,
)
    requires
        array_header(buf, e, n),
        decodable(Resp::Array(xs)),
        prefix_of(buf, encode(Resp::Array(xs)) + rest),
        buf == encode(Resp::Array(xs)) + rest,
        0 <= k < xs.len(),
        e + 2 <= p <= buf.len(),
        p == e + 2 + encode_seq(xs.take(k)).len(),
    ensures
        buf.subrange(p, buf.len() as int) == encode(xs[k]) + (encode_seq(xs.skip(k + 1)) + rest),
        decodable(xs[k]),
{
    lemma_array_header(buf, e, n, Resp::Array(xs), rest);
    lemma_encode_seq_split(xs, k);
    lemma_decodable_seq_index(xs, k);
    let after = encode_seq(xs.skip(k + 1)) + rest;
    let d = decimal_text(xs.len());
    assert(encode(Resp::Array(xs)) + rest =~= line(42, d) + (encode_seq(xs) + rest));
    lemma_line_prefix(buf, 42, d, encode_seq(xs) + rest);
    let whole = buf.subrange(e + 2, buf.len() as int);
    assert(whole == encode_seq(xs.take(k)) + encode(xs[k]) + after) by {
        assert(encode_seq(xs) + rest =~= encode_seq(xs.take(k)) + encode(xs[k]) + after);
    }
    assert(buf.subrange(p, buf.len() as int) =~= whole.subrange(
        encode_seq(xs.take(k)).len() as int,
        whole.len() as int,
    ));
    assert(buf.subrange(p, buf.len() as int) =~= encode(xs[k]) + after);
}

proof fn lemma_array_value_step(
    buf: Seq<u8>,
    e: int,
    n: i64,
    p: int,
    k: int,
    sub: Seq<u8>,
    v: Resp,
    m: int,
    xs: Seq<Resp>,
    more: Seq<u8>,
)
    requires
        array_header(buf, e, n),
        e + 2 <= p <= buf.len(),
        sub == buf.subrange(p, buf.len() as int),
        0 <= m <= sub.len(),
        sub.take(m) == encode(v),
        decodable(v),
        decodable(Resp::Array(xs)),
        prefix_of(buf, encode(Resp::Array(xs)) + more),
        0 <= k < n,
        p == e + 2 + encode_seq(xs.take(k)).len(),
    ensures
        v == xs[k],
        p + m == e + 2 + encode_seq(xs.take(k + 1)).len(),
{
    lemma_array_header(buf, e, n, Resp::Array(xs), more);
    lemma_array_step(buf, e + 2, p, xs, more, k);
    lemma_decodable_seq_index(xs, k);
    lemma_value_is_element(sub, v, m, xs[k], encode_seq(xs.skip(k + 1)) + more);
    assert(xs.take(k + 1).drop_last() =~= xs.take(k));
}

fn decode_array(buf: &[u8], e: usize, n: i64) -> (r: Decoded)
    requires
        array_header(buf@, e as int, n),
    ensures
        decode_sound(buf@, r),
        forall|xs: Seq<Resp>, rest: Seq<u8>|
            decodable(Resp::Array(xs)) && buf@ == #[trigger] (encode(Resp::Array(xs)) + rest)
                ==> decoded_as(r, Resp::Array(xs), encode(Resp::Array(xs)).len() as int),
        r is Invalid ==> !starts_a_value(buf@),
        r is Incomplete ==> starts_a_value(buf@),
    decreases buf@.len(), 0int,
{
    proof {
        reveal_with_fuel(<RedisValueRef as View>::view, 1);
        lemma_int_text_no_cr(n as int);
    }
    let _ = buf.len();
    let h: usize = e + 2;
    let count: u64 = n as u64;
    let mut items: Vec<RedisValueRef> = Vec::new();
    let mut p: usize = h;
    let mut k: u64 = 0;
    proof {
        assert(resp_views(items@) =~= Seq::<Resp>::empty());
        assert(buf@.subrange(h as int, h as int) =~= Seq::<u8>::empty());
        assert forall|xs: Seq<Resp>, more: Seq<u8>|
            decodable(Resp::Array(xs)) && #[trigger] prefix_of(
                buf@,
                encode(Resp::Array(xs)) + more,
            ) implies xs.len() == count && resp_views(items@) == xs.take(0) && p == h
            + encode_seq(xs.take(0)).len() by {
            lemma_array_header(buf@, e as int, n, Resp::Array(xs), more);
            assert(xs.take(0) =~= Seq::<Resp>::empty());
        }
    }
    while k < count
        invariant
            array_header(buf@, e as int, n),
            h == e + 2,
            h <= p <= buf@.len(),
            count == n,
            k <= count,
            items@.len() == k,
            buf@.subrange(h as int, p as int) == encode_seq(resp_views(items@)),
            decodable_seq(resp_views(items@)),
            forall|xs: Seq<Resp>, more: Seq<u8>|
                decodable(Resp::Array(xs)) && #[trigger] prefix_of(
                    buf@,
                    encode(Resp::Array(xs)) + more,
                ) ==> xs.len() == count && resp_views(items@) == xs.take(k as int) && p == h
                    + encode_seq(xs.take(k as int)).len(),
        decreases count - k,
    {
        let sub = vstd::slice::slice_subrange(buf, p, buf.len());
        let r = decode(sub);
        proof {
            assert forall|xs: Seq<Resp>, rest: Seq<u8>|
                decodable(Resp::Array(xs)) && buf@ == #[trigger] (encode(Resp::Array(xs)) + rest)
                    implies decoded_as(r, xs[k as int], encode(xs[k as int]).len() as int) by {
                lemma_prefix_whole(buf@, Resp::Array(xs), rest);
                lemma_array_element(buf@, e as int, n, p as int, xs, rest, k as int);
            }
        }
        match r {
            Decoded::Value(v, m) => {
                let ghost before = items@;
                proof {
                    assert(sub@.take(m as int) =~= buf@.subrange(p as int, p + m));
                }
                items.push(v);
                proof {
                    let vs = resp_views(items@);
                    assert(vs.drop_last() =~= resp_views(before));
                    assert(vs.last() == v@);
                    assert(buf@.subrange(h as int, p + m) =~= buf@.subrange(h as int, p as int)
                        + buf@.subrange(p as int, p + m));
                    assert forall|xs: Seq<Resp>, more: Seq<u8>|
                        decodable(Resp::Array(xs)) && #[trigger] prefix_of(
                            buf@,
                            encode(Resp::Array(xs)) + more,
                        ) implies vs == xs.take(k + 1) && p + m == h + encode_seq(
                            xs.take(k + 1),
                        ).len() by {
                        lemma_array_value_step(
                            buf@,
                            e as int,
                            n,
                            p as int,
                            k as int,
                            sub@,
                            v@,
                            m as int,
                            xs,
                            more,
                        );
                        assert(vs =~= xs.take(k + 1));
                    }
                }
                p = p + m;
                k = k + 1;
            },
            Decoded::Incomplete => {
                proof {
                    let (x, more) = choose|x: Resp, more: Seq<u8>|
                        decodable(x) && #[trigger] prefix_of(sub@, encode(x) + more);
                    lemma_unfinished_value(sub@, x, more);
                    lemma_array_starts(
                        buf@,
                        e as int,
                        n,
                        p as int,
                        resp_views(items@),
                        x,
                    );
                }
                return Decoded::Incomplete;
            },
            Decoded::Invalid => {
                proof {
                    if starts_a_value(buf@) {
                        let (x, more) = choose|x: Resp, more: Seq<u8>|
                            decodable(x) && #[trigger] prefix_of(buf@, encode(x) + more);
                        lemma_array_header(buf@, e as int, n, x, more);
                        let xs = x->Array_0;
                        lemma_array_step(buf@, h as int, p as int, xs, more, k as int);
                        lemma_decodable_seq_index(xs, k as int);
                        assert(prefix_of(
                            sub@,
                            encode(xs[k as int]) + (encode_seq(xs.skip(k + 1)) + more),
                        ));
                    }
                }
                return Decoded::Invalid;
            },
        }
    }
    proof {
        lemma_array_view(items);
        let vs = resp_views(items@);
        assert(buf@.subrange(1, e as int) == decimal_text(vs.len()));
        assert(buf@.take(p as int) =~= line(42, decimal_text(vs.len())) + buf@.subrange(
            h as int,
            p as int,
        ));
        assert forall|xs: Seq<Resp>, rest: Seq<u8>|
            decodable(Resp::Array(xs)) && buf@ == #[trigger] (encode(Resp::Array(xs)) + rest)
                implies decoded_as(
                Decoded::Value(RedisValueRef::Array(items), p),
                Resp::Array(xs),
                encode(Resp::Array(xs)).len() as int,
            ) by {
            lemma_prefix_whole(buf@, Resp::Array(xs), rest);
            lemma_array_header(buf@, e as int, n, Resp::Array(xs), rest);
            assert(xs.take(xs.len() as int) =~= xs);
        }
    }
    Decoded::Value(RedisValueRef::Array(items), p)
}

} // verus!