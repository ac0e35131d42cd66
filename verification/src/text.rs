//! Byte-string helpers shared by the command layer: ASCII case folding,
//! byte-wise equality and ordering, and decimal integer parsing and printing.

use vstd::prelude::*;
use vstd::string::StringSliceAdditionalSpecFns;

verus! {

// ---------------------------------------------------------------------------
// Literal text
// ---------------------------------------------------------------------------

/// The bytes of a string literal, as an owned vector.
pub fn text(s: &str) -> (v: Vec<u8>)
    ensures
        v@ == s.spec_bytes(),
{
    vstd::slice::slice_to_vec(s.as_bytes())
}

// ---------------------------------------------------------------------------
// ASCII case folding
// ---------------------------------------------------------------------------

/// Upper-case a single byte the way `u8::to_ascii_uppercase` does.
pub open spec fn upper_byte(b: u8) -> u8 {
    if 97 <= b <= 122 {
        (b - 32) as u8
    } else {
        b
    }
}

/// Upper-case every ASCII letter of a byte string; other bytes are kept.
pub open spec fn ascii_upper(s: Seq<u8>) -> Seq<u8> {
    Seq::new(s.len(), |i: int| upper_byte(s[i]))
}

/// Upper-casing leaves no lower-case ASCII letter, turns each lower-case
/// letter into the letter 32 below it (`a` into `A`, ..., `z` into `Z`),
/// keeps every other byte, and changes nothing a second time.
pub proof fn lemma_ascii_upper_folds_case(s: Seq<u8>)
    ensures
        ascii_upper(s).len() == s.len(),
        forall|i: int| 0 <= i < s.len() ==> !(97 <= #[trigger] ascii_upper(s)[i] <= 122),
        forall|i: int|
            0 <= i < s.len() && 97 <= #[trigger] s[i] <= 122 ==> ascii_upper(s)[i] + 32 == s[i],
        forall|i: int|
            0 <= i < s.len() && !(97 <= #[trigger] s[i] <= 122) ==> ascii_upper(s)[i] == s[i],
        ascii_upper(ascii_upper(s)) == ascii_upper(s),
{
    assert(ascii_upper(ascii_upper(s)) =~= ascii_upper(s));
}

/// A copy of `s` with each ASCII lower-case letter replaced by its upper-case form.
pub fn to_ascii_uppercase(s: &[u8]) -> (r: Vec<u8>)
    ensures
        r@ == ascii_upper(s@),
{
    let mut r: Vec<u8> = Vec::new();
    let mut i: usize = 0;
    while i < s.len()
        invariant
            i <= s@.len(),
            r@.len() == i,
            forall|j: int| 0 <= j < i ==> r@[j] == upper_byte(#[trigger] s@[j]),
        decreases s@.len() - i,
    {
        let b = s[i];
        let u: u8 = if 97 <= b && b <= 122 {
            b - 32
        } else {
            b
        };
        r.push(u);
        i = i + 1;
    }
    assert(r@ =~= ascii_upper(s@));
    r
}

// ---------------------------------------------------------------------------
// Equality and lexicographic order of byte strings
// ---------------------------------------------------------------------------

/// Whether two byte strings are equal, byte by byte.
pub fn bytes_equal(a: &[u8], b: &[u8]) -> (r: bool)
    ensures
        r == (a@ == b@),
{
    if a.len() != b.len() {
        return false;
    }
    let mut i: usize = 0;
    while i < a.len()
        invariant
            a@.len() == b@.len(),
            i <= a@.len(),
            forall|j: int| 0 <= j < i ==> a@[j] == b@[j],
        decreases a@.len() - i,
    {
        if a[i] != b[i] {
            return false;
        }
        i = i + 1;
    }
    assert(a@ =~= b@);
    true
}

/// Lexicographic "less than" on byte strings, the order of `<[u8] as Ord>`:
/// the first differing byte decides, and a proper prefix comes first.
pub open spec fn bytes_lt(a: Seq<u8>, b: Seq<u8>) -> bool
    decreases a.len(),
{
    if a.len() == 0 {
        b.len() > 0
    } else if b.len() == 0 {
        false
    } else if a[0] != b[0] {
        a[0] < b[0]
    } else {
        bytes_lt(a.drop_first(), b.drop_first())
    }
}

/// No byte string is less than itself.
pub proof fn lemma_bytes_lt_irreflexive(a: Seq<u8>)
    ensures
        !bytes_lt(a, a),
    decreases a.len(),
{
    if a.len() > 0 {
        lemma_bytes_lt_irreflexive(a.drop_first());
    }
}

/// Of two different byte strings, exactly one is less than the other.
pub proof fn lemma_bytes_lt_total(a: Seq<u8>, b: Seq<u8>)
    ensures
        a != b ==> (bytes_lt(a, b) || bytes_lt(b, a)),
        !(bytes_lt(a, b) && bytes_lt(b, a)),
    decreases a.len(),
{
    if a.len() > 0 && b.len() > 0 && a[0] == b[0] {
        lemma_bytes_lt_total(a.drop_first(), b.drop_first());
        if a.drop_first() == b.drop_first() {
            assert(a =~= seq![a[0]] + a.drop_first());
            assert(b =~= seq![b[0]] + b.drop_first());
        }
    } else if a.len() == 0 && b.len() == 0 {
        assert(a =~= b);
    }
}

/// The lexicographic order is transitive.
pub proof fn lemma_bytes_lt_transitive(a: Seq<u8>, b: Seq<u8>, c: Seq<u8>)
    requires
        bytes_lt(a, b),
        bytes_lt(b, c),
    ensures
        bytes_lt(a, c),
    decreases a.len(),
{
    if a.len() > 0 && b.len() > 0 && c.len() > 0 && a[0] == b[0] && b[0] == c[0] {
        lemma_bytes_lt_transitive(a.drop_first(), b.drop_first(), c.drop_first());
    }
}

proof fn lemma_bytes_lt_skip(a: Seq<u8>, b: Seq<u8>, i: int)
    requires
        0 <= i < a.len(),
        i < b.len(),
        a[i] == b[i],
    ensures
        bytes_lt(a.skip(i), b.skip(i)) == bytes_lt(a.skip(i + 1), b.skip(i + 1)),
{
    assert(a.skip(i).drop_first() =~= a.skip(i + 1));
    assert(b.skip(i).drop_first() =~= b.skip(i + 1));
}

/// Whether `a` comes strictly before `b` in lexicographic byte order.
pub fn bytes_less(a: &[u8], b: &[u8]) -> (r: bool)
    ensures
        r == bytes_lt(a@, b@),
{
    let mut i: usize = 0;
    assert(a@.skip(0) =~= a@);
    assert(b@.skip(0) =~= b@);
    while i < a.len() && i < b.len()
        invariant
            i <= a@.len(),
            i <= b@.len(),
            bytes_lt(a@, b@) == bytes_lt(a@.skip(i as int), b@.skip(i as int)),
        decreases a@.len() - i,
    {
        if a[i] != b[i] {
            return a[i] < b[i];
        }
        proof {
            lemma_bytes_lt_skip(a@, b@, i as int);
        }
        i = i + 1;
    }
    i < b.len()
}

// ---------------------------------------------------------------------------
// Decimal integers
// ---------------------------------------------------------------------------

/// An ASCII decimal digit.
pub open spec fn is_digit(b: u8) -> bool {
    48 <= b <= 57
}

/// Every byte is an ASCII decimal digit.
pub open spec fn all_digits(s: Seq<u8>) -> bool {
    forall|i: int| 0 <= i < s.len() ==> is_digit(#[trigger] s[i])
}

/// The number written by a string of decimal digits (leading zeros allowed).
pub open spec fn digits_value(s: Seq<u8>) -> nat
    decreases s.len(),
{
    if s.len() == 0 {
        0
    } else {
        10 * digits_value(s.drop_last()) + (s.last() - 48) as nat
    }
}

/// The integer written as an optional `+` or `-` sign followed by at least
/// one decimal digit, and nothing else; `None` for any other text.
pub open spec fn signed_decimal(s: Seq<u8>) -> Option<int> {
    if s.len() > 0 && (s[0] == 45 || s[0] == 43) {
        let d = s.drop_first();
        if d.len() > 0 && all_digits(d) {
            if s[0] == 45 {
                Some(-(digits_value(d) as int))
            } else {
                Some(digits_value(d) as int)
            }
        } else {
            None
        }
    } else if s.len() > 0 && all_digits(s) {
        Some(digits_value(s) as int)
    } else {
        None
    }
}

/// What `str::parse::<i64>` gives for this text: the signed decimal it
/// writes, when that fits in an `i64`.
pub open spec fn parse_i64_spec(s: Seq<u8>) -> Option<i64> {
    match signed_decimal(s) {
        Some(v) => if i64::MIN <= v <= i64::MAX {
            Some(v as i64)
        } else {
            None
        },
        None => None,
    }
}

/// What `str::parse::<u16>` gives for this text: an unsigned type accepts a
/// `+` sign but no `-` sign.
pub open spec fn parse_u16_spec(s: Seq<u8>) -> Option<u16> {
    if s.len() > 0 && s[0] == 45 {
        None
    } else {
        match signed_decimal(s) {
            Some(v) => if 0 <= v <= u16::MAX {
                Some(v as u16)
            } else {
                None
            },
            None => None,
        }
    }
}

proof fn lemma_digits_value_monotone(s: Seq<u8>, j: int, k: int)
    requires
        0 <= j <= k <= s.len(),
    ensures
        digits_value(s.take(j)) <= digits_value(s.take(k)),
    decreases k - j,
{
    if j < k {
        lemma_digits_value_monotone(s, j, k - 1);
        assert(s.take(k).drop_last() =~= s.take(k - 1));
    }
}

proof fn lemma_digits_value_step(s: Seq<u8>, i: int)
    requires
        0 <= i < s.len(),
    ensures
        digits_value(s.take(i + 1)) == 10 * digits_value(s.take(i)) + (s[i] - 48) as nat,
{
    assert(s.take(i + 1).drop_last() =~= s.take(i));
}

/// Reads the magnitude written by the digits `s[start..]`; `None` when a
/// byte there is not a digit or the magnitude exceeds 2^63.
fn digits_magnitude(s: &[u8], start: usize) -> (r: Option<u64>)
    requires
        start <= s@.len(),
    ensures
        match r {
            Some(m) => all_digits(s@.skip(start as int)) && m == digits_value(s@.skip(start as int))
                && m <= 0x8000_0000_0000_0000u64,
            None => !all_digits(s@.skip(start as int)) || digits_value(s@.skip(start as int))
                > 0x8000_0000_0000_0000u64,
        },
{
    let ghost d = s@.skip(start as int);
    let mut acc: u64 = 0;
    let mut i: usize = start;
    assert(d.take(0) =~= Seq::<u8>::empty());
    while i < s.len()
        invariant
            start <= i <= s@.len(),
            d == s@.skip(start as int),
            all_digits(d.take(i - start)),
            acc == digits_value(d.take(i - start)),
            acc <= 0x8000_0000_0000_0000u64,
        decreases s@.len() - i,
    {
        let c = s[i];
        if !(48 <= c && c <= 57) {
            assert(d[i - start] == c);
            return None;
        }
        proof {
            lemma_digits_value_step(d, i - start);
        }
        let next: u128 = (acc as u128) * 10 + ((c - 48) as u128);
        if next > 0x8000_0000_0000_0000u128 {
            proof {
                assert(all_digits(d.take(i + 1 - start)));
                if all_digits(d) {
                    lemma_digits_value_monotone(d, i + 1 - start, d.len() as int);
                    assert(d.take(d.len() as int) =~= d);
                }
            }
            return None;
        }
        acc = next as u64;
        i = i + 1;
        assert(all_digits(d.take(i - start)));
    }
    assert(d.take(i - start) =~= d);
    Some(acc)
}

/// Parses a signed decimal `i64` as `str::parse::<i64>` does.
pub fn parse_i64(s: &[u8]) -> (r: Option<i64>)
    ensures
        r == parse_i64_spec(s@),
{
    if s.len() == 0 {
        return None;
    }
    let signed = s[0] == 45 || s[0] == 43;
    let start: usize = if signed {
        1
    } else {
        0
    };
    assert(s@.skip(1) =~= s@.drop_first());
    assert(s@.skip(0) =~= s@);
    if start == s.len() {
        return None;
    }
    match digits_magnitude(s, start) {
        None => None,
        Some(m) => {
            if s[0] == 45 {
                if m == 0x8000_0000_0000_0000u64 {
                    Some(i64::MIN)
                } else {
                    Some(-(m as i64))
                }
            } else if m <= 0x7fff_ffff_ffff_ffffu64 {
                Some(m as i64)
            } else {
                None
            }
        },
    }
}

/// Parses an unsigned decimal `u16` as `str::parse::<u16>` does.
pub fn parse_u16(s: &[u8]) -> (r: Option<u16>)
    ensures
        r == parse_u16_spec(s@),
{
    if s.len() == 0 || s[0] == 45 {
        return None;
    }
    let start: usize = if s[0] == 43 {
        1
    } else {
        0
    };
    assert(s@.skip(1) =~= s@.drop_first());
    assert(s@.skip(0) =~= s@);
    if start == s.len() {
        return None;
    }
    match digits_magnitude(s, start) {
        None => None,
        Some(m) => {
            if m <= 65535 {
                Some(m as u16)
            } else {
                None
            }
        },
    }
}

/// The decimal digits of `n`, without leading zeros.
pub open spec fn decimal_text(n: nat) -> Seq<u8>
    decreases n,
{
    if n < 10 {
        seq![(48 + n) as u8]
    } else {
        decimal_text(n / 10).push((48 + n % 10) as u8)
    }
}

/// The decimal text of a number reads back as that number.
pub proof fn lemma_decimal_text_reads_back(n: nat)
    ensures
        all_digits(decimal_text(n)),
        decimal_text(n).len() > 0,
        digits_value(decimal_text(n)) == n,
    decreases n,
{
    if n >= 10 {
        lemma_decimal_text_reads_back(n / 10);
        let t = decimal_text(n);
        assert(t.drop_last() =~= decimal_text(n / 10));
        assert(n == 10 * (n / 10) + n % 10) by (nonlinear_arith);
        assert(((48 + n % 10) as u8 - 48) as nat == n % 10);
        assert(t.last() == (48 + n % 10) as u8);
        assert(digits_value(t) == 10 * digits_value(t.drop_last()) + (t.last() - 48) as nat);
    } else {
        let t = decimal_text(n);
        assert(t.drop_last() =~= Seq::<u8>::empty());
        assert(digits_value(t) == 10 * digits_value(t.drop_last()) + (t.last() - 48) as nat);
    }
}

/// A start of the decimal text of `n` is the decimal text of a number no
/// larger than `n`, and of a positive one when `n` is positive.
pub proof fn lemma_decimal_text_prefix(n: nat, l: int) -> (m: nat)
    requires
        1 <= l <= decimal_text(n).len(),
    ensures
        m <= n,
        n > 0 ==> m > 0,
        decimal_text(m) == decimal_text(n).take(l),
    decreases n,
{
    if l == decimal_text(n).len() {
        assert(decimal_text(n).take(l) =~= decimal_text(n));
        n
    } else {
        let m = lemma_decimal_text_prefix(n / 10, l);
        assert(decimal_text(n).take(l) =~= decimal_text(n / 10).take(l));
        m
    }
}

/// The decimal digits of `n`, as `u64::to_string` writes them.
pub fn u64_text(n: u64) -> (t: Vec<u8>)
    ensures
        t@ == decimal_text(n as nat),
    decreases n,
{
    if n < 10 {
        let mut t: Vec<u8> = Vec::new();
        t.push(48 + n as u8);
        assert(t@ =~= decimal_text(n as nat));
        t
    } else {
        let mut t = u64_text(n / 10);
        t.push(48 + (n % 10) as u8);
        t
    }
}

/// The decimal text of an integer: a `-` before the digits of a negative one.
pub open spec fn int_text(n: int) -> Seq<u8> {
    if n < 0 {
        seq![45u8] + decimal_text((-n) as nat)
    } else {
        decimal_text(n as nat)
    }
}

/// The decimal text of an `i64`, as `i64::to_string` writes it.
pub fn i64_text(n: i64) -> (t: Vec<u8>)
    ensures
        t@ == int_text(n as int),
{
    if n < 0 {
        let magnitude: u64 = if n == i64::MIN {
            0x8000_0000_0000_0000u64
        } else {
            (-n) as u64
        };
        let digits = u64_text(magnitude);
        let mut t: Vec<u8> = Vec::new();
        t.push(45);
        let mut i: usize = 0;
        while i < digits.len()
            invariant
                i <= digits@.len(),
                t@ == seq![45u8] + digits@.take(i as int),
            decreases digits@.len() - i,
        {
            t.push(digits[i]);
            assert(digits@.take(i + 1) =~= digits@.take(i as int).push(digits@[i as int]));
            i = i + 1;
        }
        assert(digits@.take(i as int) =~= digits@);
        t
    } else {
        u64_text(n as u64)
    }
}

/// The decimal text of an integer reads back as that integer.
pub proof fn lemma_int_text_parses_back(n: i64)
    ensures
        parse_i64_spec(int_text(n as int)) == Some(n),
{
    if n < 0 {
        let m = (-(n as int)) as nat;
        lemma_decimal_text_reads_back(m);
        let t = int_text(n as int);
        assert(t.drop_first() =~= decimal_text(m));
    } else {
        lemma_decimal_text_reads_back(n as nat);
        let t = decimal_text(n as nat);
        assert(48 <= t[0] <= 57);
    }
}

/// The integer whose decimal text `line` is exactly, if any.
pub fn canonical_i64(line: &[u8]) -> (r: Option<i64>)
    ensures
        match r {
            Some(n) => line@ == int_text(n as int),
            None => forall|n: i64| line@ != #[trigger] int_text(n as int),
        },
{
    match parse_i64(line) {
        Some(n) => {
            let t = i64_text(n);
            if bytes_equal(line, t.as_slice()) {
                Some(n)
            } else {
                proof {
                    assert forall|m: i64| line@ != #[trigger] int_text(m as int) by {
                        if line@ == int_text(m as int) {
                            lemma_int_text_parses_back(m);
                        }
                    }
                }
                None
            }
        },
        None => {
            proof {
                assert forall|m: i64| line@ != #[trigger] int_text(m as int) by {
                    if line@ == int_text(m as int) {
                        lemma_int_text_parses_back(m);
                    }
                }
            }
            None
        },
    }
}

} // verus!
