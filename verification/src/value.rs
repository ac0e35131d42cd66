//! Stored values: plain strings and sorted sets.
//!
//! A sorted set keeps its members in the order Redis gives them: by score,
//! and by the member's bytes among equal scores.  Scores are IEEE-754
//! doubles; the library holds each one as its bit pattern (what
//! `f64::to_bits` returns) and orders members by a key derived from those
//! bits that follows the IEEE-754 total order.

use vstd::prelude::*;
use core::cmp::Ordering;
use vstd::std_specs::cmp::PartialOrdSpecImpl;
use crate::text::{
    bytes_lt, bytes_less, lemma_bytes_lt_irreflexive, lemma_bytes_lt_total,
    lemma_bytes_lt_transitive,
};

verus! {

// ---------------------------------------------------------------------------
// Score bit patterns
// ---------------------------------------------------------------------------

/// The sign bit of a double.
pub const SIGN_BIT: u64 = 0x8000_0000_0000_0000u64;

/// The ordering key of a score: non-negative doubles (sign bit clear) get
/// the sign bit set, negative ones have all their bits inverted.
pub open spec fn order_key(bits: u64) -> u64 {
    if bits < SIGN_BIT {
        (bits + SIGN_BIT) as u64
    } else {
        (u64::MAX - bits) as u64
    }
}

/// The score bit pattern that an ordering key was made from.
pub open spec fn key_to_bits(key: u64) -> u64 {
    if key >= SIGN_BIT {
        (key - SIGN_BIT) as u64
    } else {
        (u64::MAX - key) as u64
    }
}

/// The position of a double in the IEEE-754 total order, read off its bits
/// as a sign-magnitude integer: `-0.0` is just below `+0.0`, and a larger
/// magnitude is further from zero on its side.
pub open spec fn total_order_rank(bits: u64) -> int {
    if bits < SIGN_BIT {
        bits as int
    } else {
        (SIGN_BIT - 1) - bits
    }
}

/// The bits of a double without its sign.
pub open spec fn float_magnitude(bits: u64) -> u64 {
    (bits % SIGN_BIT) as u64
}

/// The bit pattern is a NaN: all exponent bits set and a non-zero fraction.
pub open spec fn is_nan_bits(bits: u64) -> bool {
    float_magnitude(bits) > 0x7ff0_0000_0000_0000u64
}

/// The bit pattern of positive infinity.
pub const INFINITY_BITS: u64 = 0x7ff0_0000_0000_0000u64;

/// The bit pattern of negative infinity.
pub const NEG_INFINITY_BITS: u64 = 0xfff0_0000_0000_0000u64;

/// `==` on the doubles with these bit patterns: a NaN equals nothing, and
/// the two zeros are equal.
pub open spec fn float_eq(a: u64, b: u64) -> bool {
    !is_nan_bits(a) && !is_nan_bits(b) && (a == b || (float_magnitude(a) == 0
        && float_magnitude(b) == 0))
}

/// The ordering key of a score is its place in the IEEE-754 total order,
/// shifted to start at zero; so keys compare as the scores do in that order,
/// and a key gives its score back.
pub proof fn lemma_order_key_follows_total_order(a: u64, b: u64)
    ensures
        order_key(a) as int == total_order_rank(a) + SIGN_BIT,
        order_key(a) < order_key(b) <==> total_order_rank(a) < total_order_rank(b),
        order_key(a) == order_key(b) <==> a == b,
        key_to_bits(order_key(a)) == a,
        order_key(key_to_bits(a)) == a,
{
}

/// Computes `order_key`.
pub fn score_order_key(bits: u64) -> (k: u64)
    ensures
        k == order_key(bits),
{
    let k = if (bits >> 63u64) == 0 {
        bits ^ 0x8000_0000_0000_0000u64
    } else {
        !bits
    };
    assert((bits >> 63u64) == 0 ==> (bits < 0x8000_0000_0000_0000u64 && bits ^ 0x8000_0000_0000_0000u64
        == bits + 0x8000_0000_0000_0000u64)) by (bit_vector);
    assert((bits >> 63u64) != 0 ==> (bits >= 0x8000_0000_0000_0000u64 && !bits == 0xffff_ffff_ffff_ffffu64
        - bits)) by (bit_vector);
    k
}

/// Computes `key_to_bits`.
pub fn score_of_key(key: u64) -> (bits: u64)
    ensures
        bits == key_to_bits(key),
{
    if key >= SIGN_BIT {
        key - SIGN_BIT
    } else {
        u64::MAX - key
    }
}

/// Computes `float_eq`: whether two doubles, given by their bits, are `==`.
pub fn floats_equal(a: u64, b: u64) -> (r: bool)
    ensures
        r == float_eq(a, b),
{
    let ma = a % SIGN_BIT;
    let mb = b % SIGN_BIT;
    ma <= 0x7ff0_0000_0000_0000u64 && mb <= 0x7ff0_0000_0000_0000u64 && (a == b || (ma == 0 && mb
        == 0))
}

/// Whether the bits are those of a NaN.
pub fn is_nan(bits: u64) -> (r: bool)
    ensures
        r == is_nan_bits(bits),
{
    bits % SIGN_BIT > 0x7ff0_0000_0000_0000u64
}

// ---------------------------------------------------------------------------
// Sorted-set entries and their order
// ---------------------------------------------------------------------------

/// One member of a sorted set with the ordering key of its score.
#[derive(Debug, PartialEq, Eq, Ord)]
pub struct OrderedScore {
    score_bits: u64,
    member: Vec<u8>,
}

impl View for OrderedScore {
    type V = (u64, Seq<u8>);

    closed spec fn view(&self) -> (u64, Seq<u8>) {
        (self.score_bits, self.member@)
    }
}

/// The order of sorted-set entries: by score key, then by member bytes.
pub open spec fn entry_lt(a: (u64, Seq<u8>), b: (u64, Seq<u8>)) -> bool {
    a.0 < b.0 || (a.0 == b.0 && bytes_lt(a.1, b.1))
}

/// `entry_lt` is a strict total order.
pub proof fn lemma_entry_order(a: (u64, Seq<u8>), b: (u64, Seq<u8>), c: (u64, Seq<u8>))
    ensures
        !entry_lt(a, a),
        a != b ==> entry_lt(a, b) || entry_lt(b, a),
        !(entry_lt(a, b) && entry_lt(b, a)),
        entry_lt(a, b) && entry_lt(b, c) ==> entry_lt(a, c),
{
    lemma_bytes_lt_irreflexive(a.1);
    lemma_bytes_lt_total(a.1, b.1);
    if entry_lt(a, b) && entry_lt(b, c) && a.0 == b.0 && b.0 == c.0 {
        lemma_bytes_lt_transitive(a.1, b.1, c.1);
    }
}

/// The three-way comparison of two entries under `entry_lt`.
pub open spec fn entry_order(a: (u64, Seq<u8>), b: (u64, Seq<u8>)) -> Ordering {
    if entry_lt(a, b) {
        Ordering::Less
    } else if entry_lt(b, a) {
        Ordering::Greater
    } else {
        Ordering::Equal
    }
}

impl OrderedScore {
    /// The entry for `member` with the score whose bits are `score`.
    pub fn new(score: u64, member: Vec<u8>) -> (r: Self)
        ensures
            r@ == (order_key(score), member@),
    {
        let score_bits = score_order_key(score);
        OrderedScore { score_bits, member }
    }

    /// The ordering key of the score.
    pub fn key(&self) -> (k: u64)
        ensures
            k == self@.0,
    {
        self.score_bits
    }

    /// The member's bytes.
    pub fn member(&self) -> (m: &Vec<u8>)
        ensures
            m@ == self@.1,
    {
        &self.member
    }

    /// Whether `self` comes strictly before `other`.
    pub fn less_than(&self, other: &OrderedScore) -> (r: bool)
        ensures
            r == entry_lt(self@, other@),
    {
        self.score_bits < other.score_bits || (self.score_bits == other.score_bits && bytes_less(
            &self.member,
            &other.member,
        ))
    }
}

impl Clone for OrderedScore {
    fn clone(&self) -> (r: Self)
        ensures
            r@ == self@,
    {
        OrderedScore {
            score_bits: self.score_bits,
            member: vstd::slice::slice_to_vec(self.member.as_slice()),
        }
    }
}

impl PartialOrd for OrderedScore {
    fn partial_cmp(&self, other: &Self) -> (r: Option<Ordering>) {
        if self.less_than(other) {
            Some(Ordering::Less)
        } else if other.less_than(self) {
            Some(Ordering::Greater)
        } else {
            Some(Ordering::Equal)
        }
    }
}

impl PartialOrdSpecImpl for OrderedScore {
    open spec fn obeys_partial_cmp_spec() -> bool {
        true
    }

    open spec fn partial_cmp_spec(&self, other: &Self) -> Option<Ordering> {
        Some(entry_order(self@, other@))
    }
}

// ---------------------------------------------------------------------------
// The model of a sorted set
// ---------------------------------------------------------------------------

/// Entries are strictly increasing under `entry_lt`.
pub open spec fn zset_sorted(s: Seq<(u64, Seq<u8>)>) -> bool {
    forall|i: int, j: int| 0 <= i < j < s.len() ==> #[trigger] entry_lt(s[i], s[j])
}

/// No member occurs twice.
pub open spec fn zset_unique(s: Seq<(u64, Seq<u8>)>) -> bool {
    forall|i: int, j: int|
        0 <= i < s.len() && 0 <= j < s.len() && i != j ==> #[trigger] s[i].1 != #[trigger] s[j].1
}

/// A well-formed sorted set: sorted, each member once.
pub open spec fn zset_wf(s: Seq<(u64, Seq<u8>)>) -> bool {
    zset_sorted(s) && zset_unique(s)
}

/// The set holds `m`.
pub open spec fn has_member(s: Seq<(u64, Seq<u8>)>, m: Seq<u8>) -> bool {
    exists|i: int| 0 <= i < s.len() && s[i].1 == m
}

/// The position of `m` (meaningful when the set holds it).
pub open spec fn member_index(s: Seq<(u64, Seq<u8>)>, m: Seq<u8>) -> int {
    choose|i: int| 0 <= i < s.len() && s[i].1 == m
}

/// The 0-based rank of `m` in score order, if the set holds it.
pub open spec fn zset_rank(s: Seq<(u64, Seq<u8>)>, m: Seq<u8>) -> Option<int> {
    if has_member(s, m) {
        Some(member_index(s, m))
    } else {
        None
    }
}

/// The bits of `m`'s score, if the set holds it.
pub open spec fn zset_score(s: Seq<(u64, Seq<u8>)>, m: Seq<u8>) -> Option<u64> {
    if has_member(s, m) {
        Some(key_to_bits(s[member_index(s, m)].0))
    } else {
        None
    }
}

/// How many leading entries come before `e`.
pub open spec fn insert_pos(s: Seq<(u64, Seq<u8>)>, e: (u64, Seq<u8>)) -> int
    decreases s.len(),
{
    if s.len() == 0 {
        0
    } else if entry_lt(s[0], e) {
        1 + insert_pos(s.drop_first(), e)
    } else {
        0
    }
}

/// `s` with `e` put in its place in the order.
pub open spec fn sorted_insert(s: Seq<(u64, Seq<u8>)>, e: (u64, Seq<u8>)) -> Seq<(u64, Seq<u8>)> {
    s.insert(insert_pos(s, e), e)
}

/// ZADD of one member: the new set, and whether the member is new.  A member
/// already there keeps its entry when its score is `==` to the new one, and
/// is moved to the new score's place otherwise.
pub open spec fn zset_add(s: Seq<(u64, Seq<u8>)>, m: Seq<u8>, bits: u64) -> (Seq<(u64, Seq<u8>)>, bool) {
    if has_member(s, m) {
        let i = member_index(s, m);
        if float_eq(key_to_bits(s[i].0), bits) {
            (s, false)
        } else {
            (sorted_insert(s.remove(i), (order_key(bits), m)), false)
        }
    } else {
        (sorted_insert(s, (order_key(bits), m)), true)
    }
}

/// The half-open window `[lo, hi)` of positions that ZRANGE `start stop`
/// selects in a set of `len` members: negative indices count from the end,
/// the start is clamped at 0 and the stop at the last member.
pub open spec fn range_window(len: int, start: int, stop: int) -> (int, int) {
    let s0 = if start < 0 {
        start + len
    } else {
        start
    };
    let e0 = if stop < 0 {
        stop + len
    } else {
        stop
    };
    let s1 = if s0 < 0 {
        0
    } else {
        s0
    };
    if s1 >= len || s1 > e0 {
        (0, 0)
    } else if e0 >= len {
        (s1, len)
    } else {
        (s1, e0 + 1)
    }
}

/// The members that ZRANGE `start stop` lists, in order.
pub open spec fn zset_range(s: Seq<(u64, Seq<u8>)>, start: i64, stop: i64) -> Seq<Seq<u8>> {
    let w = range_window(s.len() as int, start as int, stop as int);
    Seq::new((w.1 - w.0) as nat, |i: int| s[w.0 + i].1)
}

/// The views of a sequence of byte vectors.
pub open spec fn byte_views(v: Seq<Vec<u8>>) -> Seq<Seq<u8>> {
    Seq::new(v.len(), |i: int| v[i]@)
}

// ---------------------------------------------------------------------------
// Lemmas on the model
// ---------------------------------------------------------------------------

proof fn lemma_has_member_index(s: Seq<(u64, Seq<u8>)>, m: Seq<u8>, i: int)
    requires
        zset_unique(s),
        0 <= i < s.len(),
        s[i].1 == m,
    ensures
        has_member(s, m),
        member_index(s, m) == i,
{
    assert(has_member(s, m));
    let j = member_index(s, m);
    assert(s[j].1 == m);
}

/// Where `e` goes in a sorted set: every entry before the place is below `e`,
/// none from it on is.
proof fn lemma_insert_pos(s: Seq<(u64, Seq<u8>)>, e: (u64, Seq<u8>))
    requires
        zset_sorted(s),
    ensures
        0 <= insert_pos(s, e) <= s.len(),
        forall|k: int| 0 <= k < insert_pos(s, e) ==> entry_lt(#[trigger] s[k], e),
        forall|k: int| insert_pos(s, e) <= k < s.len() ==> !entry_lt(#[trigger] s[k], e),
    decreases s.len(),
{
    if s.len() > 0 {
        let t = s.drop_first();
        assert(zset_sorted(t)) by {
            assert forall|i: int, j: int| 0 <= i < j < t.len() implies #[trigger] entry_lt(
                t[i],
                t[j],
            ) by {
                assert(entry_lt(s[i + 1], s[j + 1]));
            }
        }
        lemma_insert_pos(t, e);
        if entry_lt(s[0], e) {
            assert forall|k: int| 0 <= k < insert_pos(s, e) implies entry_lt(#[trigger] s[k], e) by {
                if k > 0 {
                    assert(s[k] == t[k - 1]);
                }
            }
            assert forall|k: int| insert_pos(s, e) <= k < s.len() implies !entry_lt(
                #[trigger] s[k],
                e,
            ) by {
                assert(s[k] == t[k - 1]);
            }
        } else {
            assert forall|k: int| 0 <= k < s.len() implies !entry_lt(#[trigger] s[k], e) by {
                if k > 0 && entry_lt(s[k], e) {
                    assert(entry_lt(s[0], s[k]));
                    lemma_entry_order(s[0], s[k], e);
                }
            }
        }
    }
}

/// Putting an entry whose member is new into a well-formed set keeps it
/// well-formed, and the entry is found at its place.
proof fn lemma_sorted_insert_wf(s: Seq<(u64, Seq<u8>)>, e: (u64, Seq<u8>))
    requires
        zset_wf(s),
        !has_member(s, e.1),
    ensures
        zset_wf(sorted_insert(s, e)),
        sorted_insert(s, e).len() == s.len() + 1,
        sorted_insert(s, e)[insert_pos(s, e)] == e,
{
    lemma_insert_pos(s, e);
    let p = insert_pos(s, e);
    let r = sorted_insert(s, e);
    assert forall|k: int| 0 <= k < s.len() implies s[k] != e by {
        if s[k] == e {
            assert(s[k].1 == e.1);
        }
    }
    assert forall|i: int, j: int| 0 <= i < j < r.len() implies #[trigger] entry_lt(r[i], r[j]) by {
        if j < p {
            assert(entry_lt(s[i], s[j]));
        } else if j == p {
            assert(r[i] == s[i]);
        } else if i < p {
            assert(r[j] == s[j - 1]);
            assert(entry_lt(s[i], e));
            lemma_entry_order(s[j - 1], e, e);
            assert(!entry_lt(s[j - 1], e));
            lemma_entry_order(e, s[j - 1], s[i]);
            lemma_entry_order(s[i], e, s[j - 1]);
        } else if i == p {
            assert(r[j] == s[j - 1]);
            lemma_entry_order(s[j - 1], e, e);
        } else {
            assert(entry_lt(s[i - 1], s[j - 1]));
        }
    }
    assert forall|i: int, j: int|
        0 <= i < r.len() && 0 <= j < r.len() && i != j implies #[trigger] r[i].1 != #[trigger] r[j].1 by {
        if i != p && j != p {
            let i2 = if i < p {
                i
            } else {
                i - 1
            };
            let j2 = if j < p {
                j
            } else {
                j - 1
            };
            assert(r[i] == s[i2]);
            assert(r[j] == s[j2]);
        } else if i == p {
            let j2 = if j < p {
                j
            } else {
                j - 1
            };
            assert(r[j] == s[j2]);
        } else {
            let i2 = if i < p {
                i
            } else {
                i - 1
            };
            assert(r[i] == s[i2]);
        }
    }
}

/// Taking an entry out of a well-formed set keeps it well-formed, and its
/// member is then gone.
proof fn lemma_remove_wf(s: Seq<(u64, Seq<u8>)>, i: int)
    requires
        zset_wf(s),
        0 <= i < s.len(),
    ensures
        zset_wf(s.remove(i)),
        !has_member(s.remove(i), s[i].1),
{
    let r = s.remove(i);
    assert forall|a: int, b: int| 0 <= a < b < r.len() implies #[trigger] entry_lt(r[a], r[b]) by {
        let a2 = if a < i {
            a
        } else {
            a + 1
        };
        let b2 = if b < i {
            b
        } else {
            b + 1
        };
        assert(entry_lt(s[a2], s[b2]));
    }
    assert forall|a: int, b: int|
        0 <= a < r.len() && 0 <= b < r.len() && a != b implies #[trigger] r[a].1 != #[trigger] r[b].1 by {
        let a2 = if a < i {
            a
        } else {
            a + 1
        };
        let b2 = if b < i {
            b
        } else {
            b + 1
        };
        assert(r[a] == s[a2]);
        assert(r[b] == s[b2]);
    }
    if has_member(r, s[i].1) {
        let k = choose|k: int| 0 <= k < r.len() && r[k].1 == s[i].1;
        let k2 = if k < i {
            k
        } else {
            k + 1
        };
        assert(r[k] == s[k2]);
    }
}

/// One ZADD step keeps a set well-formed; the member is new exactly when
/// it was not there, and the size grows by one exactly then.
pub proof fn lemma_zset_add_wf(s: Seq<(u64, Seq<u8>)>, m: Seq<u8>, bits: u64)
    requires
        zset_wf(s),
    ensures
        zset_wf(zset_add(s, m, bits).0),
        zset_add(s, m, bits).1 == !has_member(s, m),
        zset_add(s, m, bits).0.len() == s.len() + (if zset_add(s, m, bits).1 {
            1int
        } else {
            0int
        }),
        has_member(zset_add(s, m, bits).0, m),
{
    if has_member(s, m) {
        let i = member_index(s, m);
        if !float_eq(key_to_bits(s[i].0), bits) {
            lemma_remove_wf(s, i);
            lemma_sorted_insert_wf(s.remove(i), (order_key(bits), m));
            lemma_insert_pos(s.remove(i), (order_key(bits), m));
            let r = zset_add(s, m, bits).0;
            assert(r[insert_pos(s.remove(i), (order_key(bits), m))].1 == m);
        }
    } else {
        lemma_sorted_insert_wf(s, (order_key(bits), m));
        lemma_insert_pos(s, (order_key(bits), m));
        let r = zset_add(s, m, bits).0;
        assert(r[insert_pos(s, (order_key(bits), m))].1 == m);
    }
}

/// After ZADD `bits m`, ZSCORE `m` gives the new score; only a score `==`
/// to the old one leaves the old bits in place.
pub proof fn lemma_zset_add_then_score(s: Seq<(u64, Seq<u8>)>, m: Seq<u8>, bits: u64)
    requires
        zset_wf(s),
    ensures
        !has_member(s, m) ==> zset_score(zset_add(s, m, bits).0, m) == Some(bits),
        has_member(s, m) && float_eq(zset_score(s, m).unwrap(), bits) ==> zset_score(
            zset_add(s, m, bits).0,
            m,
        ) == zset_score(s, m),
        has_member(s, m) && !float_eq(zset_score(s, m).unwrap(), bits) ==> zset_score(
            zset_add(s, m, bits).0,
            m,
        ) == Some(bits),
{
    let e = (order_key(bits), m);
    if has_member(s, m) {
        let i = member_index(s, m);
        if !float_eq(key_to_bits(s[i].0), bits) {
            lemma_remove_wf(s, i);
            lemma_sorted_insert_wf(s.remove(i), e);
            lemma_insert_pos(s.remove(i), e);
            let r = sorted_insert(s.remove(i), e);
            lemma_has_member_index(r, m, insert_pos(s.remove(i), e));
        }
    } else {
        lemma_sorted_insert_wf(s, e);
        lemma_insert_pos(s, e);
        let r = sorted_insert(s, e);
        lemma_has_member_index(r, m, insert_pos(s, e));
    }
}

/// ZADD of one member leaves every other member's score as it was.
pub proof fn lemma_zset_add_keeps_others(s: Seq<(u64, Seq<u8>)>, m: Seq<u8>, bits: u64, other: Seq<u8>)
    requires
        zset_wf(s),
        other != m,
    ensures
        zset_score(zset_add(s, m, bits).0, other) == zset_score(s, other),
{
    let e = (order_key(bits), m);
    if has_member(s, m) {
        let i = member_index(s, m);
        if !float_eq(key_to_bits(s[i].0), bits) {
            let t = s.remove(i);
            lemma_remove_wf(s, i);
            lemma_sorted_insert_wf(t, e);
            lemma_insert_pos(t, e);
            let r = sorted_insert(t, e);
            let p = insert_pos(t, e);
            if has_member(s, other) {
                let j = member_index(s, other);
                let j2 = if j < i {
                    j
                } else {
                    j - 1
                };
                assert(t[j2] == s[j]);
                let j3 = if j2 < p {
                    j2
                } else {
                    j2 + 1
                };
                assert(r[j3] == t[j2]);
                lemma_has_member_index(r, other, j3);
            } else if has_member(r, other) {
                let k = choose|k: int| 0 <= k < r.len() && r[k].1 == other;
                assert(k != p);
                let k2 = if k < p {
                    k
                } else {
                    k - 1
                };
                assert(r[k] == t[k2]);
                let k3 = if k2 < i {
                    k2
                } else {
                    k2 + 1
                };
                assert(t[k2] == s[k3]);
            }
        }
    } else {
        lemma_sorted_insert_wf(s, e);
        lemma_insert_pos(s, e);
        let r = sorted_insert(s, e);
        let p = insert_pos(s, e);
        if has_member(s, other) {
            let j = member_index(s, other);
            let j3 = if j < p {
                j
            } else {
                j + 1
            };
            assert(r[j3] == s[j]);
            lemma_has_member_index(r, other, j3);
        } else if has_member(r, other) {
            let k = choose|k: int| 0 <= k < r.len() && r[k].1 == other;
            assert(k != p);
            let k2 = if k < p {
                k
            } else {
                k - 1
            };
            assert(r[k] == s[k2]);
        }
    }
}

/// A member's rank picks it out: ZRANGE from its rank to its rank lists
/// just that member.
pub proof fn lemma_rank_then_range(s: Seq<(u64, Seq<u8>)>, m: Seq<u8>)
    requires
        zset_wf(s),
        has_member(s, m),
        s.len() <= i64::MAX,
    ensures
        zset_range(s, zset_rank(s, m).unwrap() as i64, zset_rank(s, m).unwrap() as i64) == seq![m],
{
    let i = member_index(s, m);
    assert(s[i].1 == m);
    assert(zset_range(s, i as i64, i as i64) =~= seq![m]);
}

/// ZRANGE lists a run of consecutive entries: the listed members come in
/// increasing order of score, and of member bytes among equal scores.
pub proof fn lemma_range_in_order(s: Seq<(u64, Seq<u8>)>, start: i64, stop: i64)
    requires
        zset_wf(s),
    ensures
        ({
            let w = range_window(s.len() as int, start as int, stop as int);
            let r = zset_range(s, start, stop);
            &&& 0 <= w.0 <= w.1 <= s.len()
            &&& r.len() == w.1 - w.0
            &&& forall|i: int| 0 <= i < r.len() ==> #[trigger] r[i] == s[w.0 + i].1
            &&& forall|i: int, j: int|
                0 <= i < j < r.len() ==> entry_lt(#[trigger] s[w.0 + i], #[trigger] s[w.0 + j])
        }),
{
    let w = range_window(s.len() as int, start as int, stop as int);
    assert forall|i: int, j: int| 0 <= i < j < w.1 - w.0 implies entry_lt(
        #[trigger] s[w.0 + i],
        #[trigger] s[w.0 + j],
    ) by {
        assert(entry_lt(s[w.0 + i], s[w.0 + j]));
    }
}

/// ZRANGE `0 -1` lists every member, in order.
pub proof fn lemma_full_range(s: Seq<(u64, Seq<u8>)>)
    requires
        s.len() <= i64::MAX,
    ensures
        zset_range(s, 0i64, -1i64) == Seq::new(s.len(), |i: int| s[i].1),
{
    assert(zset_range(s, 0i64, -1i64) =~= Seq::new(s.len(), |i: int| s[i].1));
}

// ---------------------------------------------------------------------------
// The sorted set
// ---------------------------------------------------------------------------

/// The entries' views, in order.
pub open spec fn entries_view(v: Seq<OrderedScore>) -> Seq<(u64, Seq<u8>)> {
    Seq::new(v.len(), |i: int| v[i]@)
}

/// A sorted set of byte-string members with double scores.
#[derive(Debug)]
pub struct SortedSetData {
    entries: Vec<OrderedScore>,
}

impl View for SortedSetData {
    type V = Seq<(u64, Seq<u8>)>;

    closed spec fn view(&self) -> Seq<(u64, Seq<u8>)> {
        entries_view(self.entries@)
    }
}

proof fn lemma_entries_view_remove(v: Seq<OrderedScore>, i: int)
    requires
        0 <= i < v.len(),
    ensures
        entries_view(v.remove(i)) == entries_view(v).remove(i),
{
    assert(entries_view(v.remove(i)) =~= entries_view(v).remove(i));
}

proof fn lemma_entries_view_insert(v: Seq<OrderedScore>, i: int, e: OrderedScore)
    requires
        0 <= i <= v.len(),
    ensures
        entries_view(v.insert(i, e)) == entries_view(v).insert(i, e@),
{
    assert(entries_view(v.insert(i, e)) =~= entries_view(v).insert(i, e@));
}

impl SortedSetData {
    #[verifier::type_invariant]
    spec fn well_formed(self) -> bool {
        zset_wf(entries_view(self.entries@))
    }

    /// An empty sorted set.
    pub fn new() -> (r: Self)
        ensures
            r@ == Seq::<(u64, Seq<u8>)>::empty(),
    {
        let r = SortedSetData { entries: Vec::new() };
        assert(r@ =~= Seq::<(u64, Seq<u8>)>::empty());
        r
    }

    /// The number of members.
    pub fn len(&self) -> (n: usize)
        ensures
            n == self@.len(),
            zset_wf(self@),
    {
        proof {
            use_type_invariant(self);
        }
        self.entries.len()
    }

    fn find_member(entries: &Vec<OrderedScore>, member: &[u8]) -> (r: Option<usize>)
        requires
            zset_unique(entries_view(entries@)),
        ensures
            match r {
                Some(i) => i < entries@.len() && entries_view(entries@)[i as int].1 == member@
                    && has_member(entries_view(entries@), member@) && member_index(
                    entries_view(entries@),
                    member@,
                ) == i,
                None => !has_member(entries_view(entries@), member@),
            },
    {
        let ghost s = entries_view(entries@);
        let mut i: usize = 0;
        while i < entries.len()
            invariant
                s == entries_view(entries@),
                zset_unique(s),
                i <= entries@.len(),
                forall|k: int| 0 <= k < i ==> (#[trigger] s[k]).1 != member@,
            decreases entries@.len() - i,
        {
            if crate::text::bytes_equal(entries[i].member(), member) {
                proof {
                    lemma_has_member_index(s, member@, i as int);
                }
                return Some(i);
            }
            i = i + 1;
        }
        None
    }

    /// The rank of `member`: its 0-based position in score order.
    pub fn rank(&self, member: &[u8]) -> (r: Option<i64>)
        ensures
            match zset_rank(self@, member@) {
                Some(i) => r == Some(i as i64),
                None => r is None,
            },
    {
        proof {
            use_type_invariant(self);
        }
        match Self::find_member(&self.entries, member) {
            Some(i) => Some(i as i64),
            None => None,
        }
    }

    /// The bits of `member`'s score.
    pub fn score(&self, member: &[u8]) -> (r: Option<u64>)
        ensures
            r == zset_score(self@, member@),
    {
        proof {
            use_type_invariant(self);
        }
        match Self::find_member(&self.entries, member) {
            Some(i) => Some(score_of_key(self.entries[i].key())),
            None => None,
        }
    }

    /// The members from rank `start` to rank `stop`, both included, where a
    /// negative rank counts from the end.
    pub fn range(&self, start: i64, stop: i64) -> (r: Vec<Vec<u8>>)
        ensures
            byte_views(r@) == zset_range(self@, start, stop),
    {
        let len: i128 = self.entries.len() as i128;
        let s0: i128 = if start < 0 {
            start as i128 + len
        } else {
            start as i128
        };
        let e0: i128 = if stop < 0 {
            stop as i128 + len
        } else {
            stop as i128
        };
        let s1: i128 = if s0 < 0 {
            0
        } else {
            s0
        };
        let ghost w = range_window(self@.len() as int, start as int, stop as int);
        let mut r: Vec<Vec<u8>> = Vec::new();
        if s1 >= len || s1 > e0 {
            assert(byte_views(r@) =~= zset_range(self@, start, stop));
            return r;
        }
        let hi: i128 = if e0 >= len {
            len
        } else {
            e0 + 1
        };
        let lo: usize = s1 as usize;
        let hi: usize = hi as usize;
        assert(lo == w.0 && hi == w.1);
        let mut i: usize = lo;
        while i < hi
            invariant
                lo <= i <= hi <= self.entries@.len(),
                r@.len() == i - lo,
                forall|k: int| 0 <= k < r@.len() ==> (#[trigger] r@[k])@ == self@[lo + k].1,
            decreases hi - i,
        {
            let m = vstd::slice::slice_to_vec(self.entries[i].member().as_slice());
            r.push(m);
            i = i + 1;
        }
        assert(byte_views(r@) =~= zset_range(self@, start, stop));
        r
    }

    fn insert_sorted(entries: &mut Vec<OrderedScore>, e: OrderedScore)
        requires
            zset_wf(entries_view(old(entries)@)),
            !has_member(entries_view(old(entries)@), e@.1),
        ensures
            entries_view(final(entries)@) == sorted_insert(entries_view(old(entries)@), e@),
            zset_wf(entries_view(final(entries)@)),
    {
        let ghost s = entries_view(entries@);
        proof {
            lemma_insert_pos(s, e@);
            lemma_sorted_insert_wf(s, e@);
        }
        let mut j: usize = 0;
        while j < entries.len() && entries[j].less_than(&e)
            invariant
                s == entries_view(entries@),
                j <= entries@.len(),
                forall|k: int| 0 <= k < j ==> entry_lt(#[trigger] s[k], e@),
            decreases entries@.len() - j,
        {
            j = j + 1;
        }
        proof {
            let p = insert_pos(s, e@);
            if j < p {
                assert(entry_lt(s[j as int], e@));
            }
            if j > p {
                assert(entry_lt(s[p], e@));
            }
            lemma_entries_view_insert(entries@, j as int, e);
        }
        entries.insert(j, e);
    }

    /// Adds `member` with the score whose bits are `score`, or moves it to
    /// that score; true when the member is new.
    pub fn add(&mut self, member: Vec<u8>, score: u64) -> (added: bool)
        ensures
            (final(self)@, added) == zset_add(old(self)@, member@, score),
            zset_wf(final(self)@),
    {
        proof {
            use_type_invariant(&*self);
            lemma_zset_add_wf(self@, member@, score);
        }
        let ghost s = self@;
        let mut entries: Vec<OrderedScore> = Vec::new();
        std::mem::swap(&mut entries, &mut self.entries);
        assert(entries_view(entries@) == s);
        match Self::find_member(&entries, member.as_slice()) {
            Some(i) => {
                let old_bits = score_of_key(entries[i].key());
                if floats_equal(old_bits, score) {
                    self.entries = entries;
                    return false;
                }
                proof {
                    lemma_entries_view_remove(entries@, i as int);
                    lemma_remove_wf(s, i as int);
                }
                entries.remove(i);
                let e = OrderedScore::new(score, member);
                Self::insert_sorted(&mut entries, e);
                self.entries = entries;
                false
            },
            None => {
                let e = OrderedScore::new(score, member);
                Self::insert_sorted(&mut entries, e);
                self.entries = entries;
                true
            },
        }
    }
}

impl Clone for SortedSetData {
    fn clone(&self) -> (r: Self)
        ensures
            r@ == self@,
    {
        proof {
            use_type_invariant(self);
        }
        let mut entries: Vec<OrderedScore> = Vec::new();
        let mut i: usize = 0;
        while i < self.entries.len()
            invariant
                i <= self.entries@.len(),
                entries@.len() == i,
                forall|k: int| 0 <= k < i ==> (#[trigger] entries@[k])@ == self.entries@[k]@,
            decreases self.entries@.len() - i,
        {
            entries.push(self.entries[i].clone());
            i = i + 1;
        }
        assert(entries_view(entries@) =~= entries_view(self.entries@));
        SortedSetData { entries }
    }
}

// ---------------------------------------------------------------------------
// Stored values
// ---------------------------------------------------------------------------

/// What a key holds.
#[derive(Debug)]
pub enum RedisValue {
    String(Vec<u8>),
    SortedSet(SortedSetData),
}

/// The model of a stored value.
pub enum ValueModel {
    Str(Seq<u8>),
    ZSet(Seq<(u64, Seq<u8>)>),
}

impl Clone for RedisValue {
    fn clone(&self) -> (r: Self)
        ensures
            r@ == self@,
    {
        match self {
            RedisValue::String(v) => RedisValue::String(vstd::slice::slice_to_vec(v.as_slice())),
            RedisValue::SortedSet(z) => RedisValue::SortedSet(z.clone()),
        }
    }
}

impl View for RedisValue {
    type V = ValueModel;

    open spec fn view(&self) -> ValueModel {
        match self {
            RedisValue::String(s) => ValueModel::Str(s@),
            RedisValue::SortedSet(z) => ValueModel::ZSet(z@),
        }
    }
}

} // verus!
