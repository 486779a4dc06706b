//! Numbers as they stand in the fields of a log: decimal digits with an
//! optional sign, and seconds with a decimal point and an exponent, read as
//! nanoseconds.

use crate::arith::pow10;
use vstd::prelude::*;

verus! {

/// The byte `+`.
pub const PLUS: u8 = 43;

/// The byte `-`.
pub const MINUS: u8 = 45;

/// The byte `.`.
pub const DOT: u8 = 46;

/// The byte `0`.
pub const ZERO: u8 = 48;

/// The byte `9`.
pub const NINE: u8 = 57;

/// Whether a byte is a decimal digit.
pub open spec fn is_digit(b: u8) -> bool {
    ZERO <= b <= NINE
}

/// The number that a digit stands for; zero for any other byte.
pub open spec fn digit_of(b: u8) -> nat {
    if is_digit(b) {
        (b - ZERO) as nat
    } else {
        0
    }
}

/// Whether every byte is a decimal digit.
pub open spec fn all_digits(s: Seq<u8>) -> bool {
    forall|i: int| 0 <= i < s.len() ==> is_digit(#[trigger] s[i])
}

/// The number that a run of digits stands for, the first digit counting most.
pub open spec fn digits_value(s: Seq<u8>) -> nat
    decreases s.len(),
{
    if s.len() == 0 {
        0
    } else {
        digits_value(s.drop_last()) * 10 + digit_of(s.last())
    }
}

/// The number that a run of digits stands for when it follows digits that
/// stand for `init`.
pub open spec fn extended(init: nat, s: Seq<u8>) -> nat
    decreases s.len(),
{
    if s.len() == 0 {
        init
    } else {
        extended(init, s.drop_last()) * 10 + digit_of(s.last())
    }
}

/// A run of digits behind nothing stands for its own value.
pub proof fn lemma_extended_from_zero(s: Seq<u8>)
    ensures
        extended(0, s) == digits_value(s),
    decreases s.len(),
{
    if s.len() > 0 {
        lemma_extended_from_zero(s.drop_last());
    }
}

/// A run of digits behind another stands for the value of both in a row.
pub proof fn lemma_extended_is_concat(a: Seq<u8>, b: Seq<u8>)
    ensures
        extended(digits_value(a), b) == digits_value(a + b),
    decreases b.len(),
{
    if b.len() == 0 {
        assert(a + b =~= a);
    } else {
        lemma_extended_is_concat(a, b.drop_last());
        assert((a + b).drop_last() =~= a + b.drop_last());
        assert((a + b).last() == b.last());
    }
}

/// More digits never make the value smaller.
pub proof fn lemma_extended_grows(init: nat, s: Seq<u8>, n: int)
    requires
        0 <= n <= s.len(),
    ensures
        extended(init, s.subrange(0, n)) <= extended(init, s),
    decreases s.len() - n,
{
    if n == s.len() {
        assert(s.subrange(0, n) =~= s);
    } else {
        lemma_extended_grows(init, s.drop_last(), n);
        assert(s.drop_last().subrange(0, n) =~= s.subrange(0, n));
    }
}

/// Reads the digits of `bytes` from index `from` up to `to` behind digits
/// that stand for `init`. The result is the value of all of them if the
/// bytes are digits and the value is at most `limit`.
pub fn accumulate_digits(bytes: &[u8], from: usize, to: usize, init: u128, limit: u128) -> (r: Option<
    u128,
>)
    requires
        from <= to <= bytes.len(),
        init <= limit <= 0x0fff_ffff_ffff_ffff_ffff_ffff_ffff_ffff,
    ensures
        r.is_some() <==> all_digits(bytes@.subrange(from as int, to as int)) && extended(
            init as nat,
            bytes@.subrange(from as int, to as int),
        ) <= limit,
        r.is_some() ==> r.unwrap() == extended(init as nat, bytes@.subrange(from as int, to as int)),
{
    let ghost whole = bytes@.subrange(from as int, to as int);
    let mut acc: u128 = init;
    let mut i: usize = from;
    assert(bytes@.subrange(from as int, from as int) =~= Seq::<u8>::empty());
    while i < to
        invariant
            from <= i <= to <= bytes.len(),
            whole == bytes@.subrange(from as int, to as int),
            all_digits(bytes@.subrange(from as int, i as int)),
            acc == extended(init as nat, bytes@.subrange(from as int, i as int)),
            acc <= limit,
            limit <= 0x0fff_ffff_ffff_ffff_ffff_ffff_ffff_ffff,
        decreases to - i,
    {
        let b: u8 = bytes[i];
        let ghost seen = bytes@.subrange(from as int, i as int);
        let ghost next = bytes@.subrange(from as int, i + 1);
        proof {
            assert(next.drop_last() =~= seen);
            assert(next.last() == b);
            assert(whole[i - from] == b);
        }
        if b < ZERO || b > NINE {
            return None;
        }
        acc = acc * 10 + (b - ZERO) as u128;
        if acc > limit {
            proof {
                lemma_extended_grows(init as nat, whole, i + 1 - from);
                assert(whole.subrange(0, i + 1 - from) =~= next);
            }
            return None;
        }
        proof {
            assert forall|j: int| 0 <= j < next.len() implies is_digit(#[trigger] next[j]) by {
                if j < seen.len() {
                    assert(next[j] == seen[j]);
                }
            }
        }
        i = i + 1;
    }
    Some(acc)
}

/// Reads the digits of `bytes` from index `from` up to `to`. The result is
/// their value if all of them are digits and the value is at most `limit`.
pub fn parse_digits(bytes: &[u8], from: usize, to: usize, limit: u128) -> (r: Option<u128>)
    requires
        from <= to <= bytes.len(),
        limit <= 0x0fff_ffff_ffff_ffff_ffff_ffff_ffff_ffff,
    ensures
        r.is_some() <==> all_digits(bytes@.subrange(from as int, to as int)) && digits_value(
            bytes@.subrange(from as int, to as int),
        ) <= limit,
        r.is_some() ==> r.unwrap() == digits_value(bytes@.subrange(from as int, to as int)),
{
    proof {
        lemma_extended_from_zero(bytes@.subrange(from as int, to as int));
    }
    accumulate_digits(bytes, from, to, 0, limit)
}

/// What follows an optional `+`.
pub open spec fn after_plus(s: Seq<u8>) -> Seq<u8> {
    if s.len() > 0 && s[0] == PLUS {
        s.subrange(1, s.len() as int)
    } else {
        s
    }
}

/// The value of an unsigned decimal number: an optional `+`, then one digit
/// or more.
pub open spec fn unsigned_value(s: Seq<u8>) -> Option<nat> {
    let d = after_plus(s);
    if d.len() > 0 && all_digits(d) {
        Some(digits_value(d))
    } else {
        None
    }
}

/// Whether the text begins with a `-`.
pub open spec fn is_negative(s: Seq<u8>) -> bool {
    s.len() > 0 && s[0] == MINUS
}

/// What follows an optional sign.
pub open spec fn after_sign(s: Seq<u8>) -> Seq<u8> {
    if s.len() > 0 && (s[0] == PLUS || s[0] == MINUS) {
        s.subrange(1, s.len() as int)
    } else {
        s
    }
}

/// The value of a signed decimal number: an optional sign, then one digit or
/// more.
pub open spec fn signed_value(s: Seq<u8>) -> Option<int> {
    let d = after_sign(s);
    if d.len() > 0 && all_digits(d) {
        if is_negative(s) {
            Some(-(digits_value(d) as int))
        } else {
            Some(digits_value(d) as int)
        }
    } else {
        None
    }
}

/// Reads the bytes from `from` up to `to` as an unsigned decimal number
/// that fits in 64 bits.
pub fn parse_u64_in(bytes: &[u8], from: usize, to: usize) -> (r: Option<u64>)
    requires
        from <= to <= bytes.len(),
    ensures
        r == as_u64(bytes@.subrange(from as int, to as int)),
{
    let ghost text = bytes@.subrange(from as int, to as int);
    let first: usize = if from < to && bytes[from] == PLUS {
        from + 1
    } else {
        from
    };
    assert(bytes@.subrange(first as int, to as int) =~= after_plus(text));
    if first == to {
        return None;
    }
    match parse_digits(bytes, first, to, u64::MAX as u128) {
        Some(v) => Some(v as u64),
        None => None,
    }
}

/// Reads an unsigned decimal number that fits in 64 bits.
pub fn parse_u64(bytes: &[u8]) -> (r: Option<u64>)
    ensures
        r == as_u64(bytes@),
{
    assert(bytes@.subrange(0, bytes.len() as int) =~= bytes@);
    parse_u64_in(bytes, 0, bytes.len())
}

/// Reads an unsigned decimal number that fits in 32 bits.
pub fn parse_u32(bytes: &[u8]) -> (r: Option<u32>)
    ensures
        r == as_u32(bytes@),
{
    match parse_u64(bytes) {
        Some(v) => if v <= u32::MAX as u64 {
            Some(v as u32)
        } else {
            None
        },
        None => None,
    }
}

/// Reads a signed decimal number that fits in 32 bits.
pub fn parse_i32(bytes: &[u8]) -> (r: Option<i32>)
    ensures
        r == as_i32(bytes@),
{
    let negative: bool = bytes.len() > 0 && bytes[0] == MINUS;
    let from: usize = if bytes.len() > 0 && (bytes[0] == PLUS || bytes[0] == MINUS) {
        1
    } else {
        0
    };
    assert(bytes@.subrange(from as int, bytes.len() as int) =~= after_sign(bytes@));
    if from == bytes.len() {
        return None;
    }
    match parse_digits(bytes, from, bytes.len(), 0x8000_0000) {
        Some(v) => {
            if negative {
                Some((-(v as i64)) as i32)
            } else if v <= i32::MAX as u128 {
                Some(v as i32)
            } else {
                None
            }
        },
        None => None,
    }
}

/// The byte `e`.
pub const LOWER_E: u8 = 101;

/// The byte `E`.
pub const UPPER_E: u8 = 69;

/// Whether `k` is the first place in `s` that holds `a` or `b`, or the
/// length of `s` if it holds neither.
pub open spec fn is_first_of(s: Seq<u8>, a: u8, b: u8, k: int) -> bool {
    &&& 0 <= k <= s.len()
    &&& forall|j: int| 0 <= j < k ==> #[trigger] s[j] != a && s[j] != b
    &&& k < s.len() ==> s[k] == a || s[k] == b
}

/// The first place in `s` that holds `a` or `b`, or the length of `s`.
pub open spec fn first_of(s: Seq<u8>, a: u8, b: u8) -> int {
    choose|k: int| is_first_of(s, a, b, k)
}

/// What stands before the exponent: the text behind the sign, up to the
/// first `e` or `E`.
pub open spec fn mantissa(s: Seq<u8>) -> Seq<u8> {
    let body = after_sign(s);
    body.subrange(0, first_of(body, LOWER_E, UPPER_E))
}

/// What stands behind the first `e` or `E`, if there is one.
pub open spec fn exponent_text(s: Seq<u8>) -> Option<Seq<u8>> {
    let body = after_sign(s);
    let k = first_of(body, LOWER_E, UPPER_E);
    if k < body.len() {
        Some(body.subrange(k + 1, body.len() as int))
    } else {
        None
    }
}

/// The exponent: zero without one, else the signed number behind the `e`.
pub open spec fn exponent_value(s: Seq<u8>) -> Option<int> {
    match exponent_text(s) {
        Some(text) => signed_value(text),
        None => Some(0),
    }
}

/// The digits before the decimal point.
pub open spec fn whole_part(s: Seq<u8>) -> Seq<u8> {
    let m = mantissa(s);
    m.subrange(0, first_of(m, DOT, DOT))
}

/// The digits after the decimal point.
pub open spec fn fraction_part(s: Seq<u8>) -> Seq<u8> {
    let m = mantissa(s);
    let k = first_of(m, DOT, DOT);
    if k < m.len() {
        m.subrange(k + 1, m.len() as int)
    } else {
        Seq::empty()
    }
}

/// `d` times ten to the power `shift`, rounded down.
pub open spec fn scaled(d: nat, shift: int) -> nat {
    if shift >= 0 {
        d * pow10(shift as nat)
    } else {
        d / pow10((-shift) as nat)
    }
}

/// The nanoseconds that a decimal number of seconds stands for: an optional
/// sign; digits, and optionally a `.` and more digits, with a digit on at
/// least one side; and optionally an `e` or `E` and a signed exponent. What
/// is less than a nanosecond is dropped.
pub open spec fn seconds_value(s: Seq<u8>) -> Option<int> {
    let w = whole_part(s);
    let f = fraction_part(s);
    match exponent_value(s) {
        Some(e) => if all_digits(w) && all_digits(f) && w.len() + f.len() > 0 {
            let m = scaled(digits_value(w + f), 9 + e - f.len());
            if is_negative(s) {
                Some(-(m as int))
            } else {
                Some(m as int)
            }
        } else {
            None
        },
        None => None,
    }
}

/// There is one place that [`is_first_of`] accepts.
pub proof fn lemma_first_of(s: Seq<u8>, a: u8, b: u8, k: int)
    requires
        is_first_of(s, a, b, k),
    ensures
        first_of(s, a, b) == k,
{
    let c = first_of(s, a, b);
    assert(is_first_of(s, a, b, c));
    if c < k {
        assert(s[c] != a && s[c] != b);
    } else if k < c {
        assert(s[k] != a && s[k] != b);
    }
}

/// A power of ten is positive, and the powers of a sum of exponents
/// multiply.
pub proof fn lemma_pow10_adds(j: nat, k: nat)
    ensures
        pow10(j) > 0,
        pow10(j + k) == pow10(j) * pow10(k),
    decreases j,
{
    if j == 0 {
        assert(pow10(0) == 1);
        assert(pow10(0 + k) == 1 * pow10(k));
    } else {
        lemma_pow10_adds((j - 1) as nat, k);
        assert(pow10(j + k) == 10 * pow10((j - 1 + k) as nat));
        assert(10 * (pow10((j - 1) as nat) * pow10(k)) == (10 * pow10((j - 1) as nat)) * pow10(k))
            by (nonlinear_arith);
    }
}

/// The first digits of a run stand for its value without the powers of ten
/// of the digits that follow them.
pub proof fn lemma_value_of_prefix(s: Seq<u8>, k: int)
    requires
        0 <= k <= s.len(),
    ensures
        digits_value(s.subrange(0, k)) == digits_value(s) / pow10((s.len() - k) as nat),
    decreases s.len() - k,
{
    if k == s.len() {
        assert(s.subrange(0, k) =~= s);
        assert(pow10(0) == 1);
        assert(digits_value(s) as int / 1 == digits_value(s));
    } else {
        let rest = s.drop_last();
        lemma_value_of_prefix(rest, k);
        assert(rest.subrange(0, k) =~= s.subrange(0, k));
        let n = (rest.len() - k) as nat;
        let m = (s.len() - k) as nat;
        let v = digits_value(rest) as int;
        let d = digit_of(s.last()) as int;
        let x = v * 10 + d;
        let p = pow10(n) as int;
        assert(m == n + 1);
        assert(pow10(m) == 10 * pow10((m - 1) as nat));
        lemma_pow10_adds(n, 0);
        assert(digits_value(s) == x);
        assert(x / 10 == v) by (nonlinear_arith)
            requires
                x == v * 10 + d,
                0 <= d < 10,
        ;
        vstd::arithmetic::div_mod::lemma_div_denominator(x, 10, p);
        assert(x / (10 * p) == v / p);
        assert(pow10(m) as int == 10 * p);
        assert(digits_value(s) as int / (pow10(m) as int) == digits_value(rest) as int / p);
    }
}

/// A run of digits stands for less than ten to the power of its length.
pub proof fn lemma_value_below_pow10(s: Seq<u8>)
    ensures
        digits_value(s) < pow10(s.len()),
    decreases s.len(),
{
    if s.len() > 0 {
        lemma_value_below_pow10(s.drop_last());
    }
}

/// Whether the bytes from `from` up to `to` are all digits.
pub fn digits_only(bytes: &[u8], from: usize, to: usize) -> (ok: bool)
    requires
        from <= to <= bytes.len(),
    ensures
        ok == all_digits(bytes@.subrange(from as int, to as int)),
{
    let mut i: usize = from;
    while i < to
        invariant
            from <= i <= to <= bytes.len(),
            forall|j: int| from <= j < i ==> is_digit(#[trigger] bytes[j]),
        decreases to - i,
    {
        if bytes[i] < ZERO || bytes[i] > NINE {
            assert(!is_digit(bytes@.subrange(from as int, to as int)[i - from]));
            return false;
        }
        i = i + 1;
    }
    assert forall|j: int| 0 <= j < to - from implies is_digit(
        #[trigger] bytes@.subrange(from as int, to as int)[j],
    ) by {
        assert(is_digit(bytes[from + j]));
    }
    true
}

/// Finds the first `a` or `b` among the bytes from `from` up to `to`.
pub fn find_first(bytes: &[u8], from: usize, to: usize, a: u8, b: u8) -> (at: usize)
    requires
        from <= to <= bytes.len(),
    ensures
        from <= at <= to,
        first_of(bytes@.subrange(from as int, to as int), a, b) == at - from,
{
    let mut at: usize = from;
    while at < to && bytes[at] != a && bytes[at] != b
        invariant
            from <= at <= to <= bytes.len(),
            forall|j: int| from <= j < at ==> #[trigger] bytes[j] != a && bytes[j] != b,
        decreases to - at,
    {
        at = at + 1;
    }
    proof {
        let text = bytes@.subrange(from as int, to as int);
        assert(is_first_of(text, a, b, at - from)) by {
            assert forall|j: int| 0 <= j < at - from implies #[trigger] text[j] != a && text[j]
                != b by {
                assert(bytes[from + j] != a && bytes[from + j] != b);
            }
        }
        lemma_first_of(text, a, b, at - from);
    }
    at
}

/// The unsigned number that a text stands for, if it fits in 64 bits.
pub open spec fn as_u64(s: Seq<u8>) -> Option<u64> {
    match unsigned_value(s) {
        Some(v) => if v <= u64::MAX {
            Some(v as u64)
        } else {
            None
        },
        None => None,
    }
}

/// The unsigned number that a text stands for, if it fits in 32 bits.
pub open spec fn as_u32(s: Seq<u8>) -> Option<u32> {
    match unsigned_value(s) {
        Some(v) => if v <= u32::MAX {
            Some(v as u32)
        } else {
            None
        },
        None => None,
    }
}

/// The signed number that a text stands for, if it fits in 32 bits.
pub open spec fn as_i32(s: Seq<u8>) -> Option<i32> {
    match signed_value(s) {
        Some(v) => if i32::MIN <= v <= i32::MAX {
            Some(v as i32)
        } else {
            None
        },
        None => None,
    }
}

/// The nanoseconds that a text in seconds stands for, if they fit in an
/// `i64`.
pub open spec fn as_nanos(s: Seq<u8>) -> Option<i64> {
    match seconds_value(s) {
        Some(v) => if i64::MIN <= v <= i64::MAX {
            Some(v as i64)
        } else {
            None
        },
        None => None,
    }
}

/// The largest magnitude that a number of nanoseconds can have: that of the
/// first instant of all.
pub const MAGNITUDE_LIMIT: u128 = 0x8000_0000_0000_0000;

/// Exponents beyond this magnitude are not told apart: each of them moves
/// every digit of any text that fits in memory out of the range of
/// nanoseconds.
pub const EXPONENT_LIMIT: u128 = 1_000_000_000_000_000_000_000_000_000_000;

/// An exponent as it was read.
#[derive(Clone, Copy, Debug, PartialEq, Eq, Structural)]
pub enum Exponent {
    /// An exponent of at most [`EXPONENT_LIMIT`] in magnitude.
    Within { value: i128 },
    /// A positive exponent beyond the limit.
    FarAbove,
    /// A negative exponent beyond the limit.
    FarBelow,
}

/// How an exponent is read.
pub open spec fn exponent_of(e: int) -> Exponent {
    if e > EXPONENT_LIMIT {
        Exponent::FarAbove
    } else if e < -EXPONENT_LIMIT {
        Exponent::FarBelow
    } else {
        Exponent::Within { value: e as i128 }
    }
}

/// Reads the bytes from `from` up to `to` as a signed exponent.
pub fn parse_exponent(bytes: &[u8], from: usize, to: usize) -> (r: Option<Exponent>)
    requires
        from <= to <= bytes.len(),
    ensures
        r == match signed_value(bytes@.subrange(from as int, to as int)) {
            Some(e) => Some(exponent_of(e)),
            None => None,
        },
{
    let ghost text = bytes@.subrange(from as int, to as int);
    let negative: bool = from < to && bytes[from] == MINUS;
    let first: usize = if from < to && (bytes[from] == PLUS || bytes[from] == MINUS) {
        from + 1
    } else {
        from
    };
    assert(bytes@.subrange(first as int, to as int) =~= after_sign(text));
    if first == to || !digits_only(bytes, first, to) {
        return None;
    }
    match parse_digits(bytes, first, to, EXPONENT_LIMIT) {
        Some(v) => {
            if negative {
                Some(Exponent::Within { value: -(v as i128) })
            } else {
                Some(Exponent::Within { value: v as i128 })
            }
        },
        None => {
            if negative {
                Some(Exponent::FarBelow)
            } else {
                Some(Exponent::FarAbove)
            }
        },
    }
}

/// The value of the first `keep` digits of a number whose digits before the
/// point stand from `from` up to `dot` and whose digits behind it from
/// `frac` up to `mark`, if it is at most `limit`.
#[verifier::rlimit(40)]
pub fn leading_digits(
    bytes: &[u8],
    from: usize,
    dot: usize,
    frac: usize,
    mark: usize,
    keep: usize,
    limit: u128,
) -> (r: Option<u128>)
    requires
        from <= dot <= frac <= mark <= bytes.len(),
        keep <= (dot - from) + (mark - frac),
        limit <= 0x0fff_ffff_ffff_ffff_ffff_ffff_ffff_ffff,
        all_digits(bytes@.subrange(from as int, dot as int)),
        all_digits(bytes@.subrange(frac as int, mark as int)),
    ensures
        ({
            let digits = bytes@.subrange(from as int, dot as int) + bytes@.subrange(
                frac as int,
                mark as int,
            );
            let v = digits_value(digits.subrange(0, keep as int));
            r == if v <= limit {
                Some(v as u128)
            } else {
                None
            }
        }),
{
    let ghost w = bytes@.subrange(from as int, dot as int);
    let ghost f = bytes@.subrange(frac as int, mark as int);
    let whole_kept: usize = if keep < dot - from {
        keep
    } else {
        dot - from
    };
    let frac_kept: usize = keep - whole_kept;
    let ghost wk = bytes@.subrange(from as int, from + whole_kept);
    let ghost fk = bytes@.subrange(frac as int, frac + frac_kept);
    proof {
        assert((w + f).subrange(0, keep as int) =~= wk + fk);
        assert forall|j: int| 0 <= j < wk.len() implies is_digit(#[trigger] wk[j]) by {
            assert(wk[j] == w[j]);
        }
        assert forall|j: int| 0 <= j < fk.len() implies is_digit(#[trigger] fk[j]) by {
            assert(fk[j] == f[j]);
        }
        lemma_extended_from_zero(wk);
        lemma_extended_is_concat(wk, fk);
        lemma_extended_grows(digits_value(wk), fk, 0);
        assert(fk.subrange(0, 0) =~= Seq::<u8>::empty());
    }
    match accumulate_digits(bytes, from, from + whole_kept, 0, limit) {
        Some(before) => accumulate_digits(bytes, frac, frac + frac_kept, before, limit),
        None => None,
    }
}

/// `value` times ten to the power `shift`, if it is at most `limit`.
pub fn times_pow10(value: u128, shift: u128, limit: u128) -> (r: Option<u128>)
    requires
        value <= limit <= 0x0fff_ffff_ffff_ffff_ffff_ffff_ffff_ffff,
    ensures
        r == if value * pow10(shift as nat) <= limit {
            Some((value * pow10(shift as nat)) as u128)
        } else {
            None
        },
{
    if value == 0 {
        assert(0 * pow10(shift as nat) == 0) by (nonlinear_arith);
        return Some(0);
    }
    let mut acc: u128 = value;
    let mut k: u128 = 0;
    proof {
        assert(pow10(0) == 1);
        assert(value * 1 == value);
    }
    while k < shift
        invariant
            k <= shift,
            1 <= value,
            acc == value * pow10(k as nat),
            acc <= limit <= 0x0fff_ffff_ffff_ffff_ffff_ffff_ffff_ffff,
        decreases shift - k,
    {
        proof {
            assert(pow10((k + 1) as nat) == 10 * pow10(k as nat));
            assert(value * pow10(k as nat) * 10 == value * (10 * pow10(k as nat))) by (nonlinear_arith);
        }
        acc = acc * 10;
        k = k + 1;
        if acc > limit {
            proof {
                crate::arith::lemma_pow10_grows(k as nat, shift as nat);
                assert(value * pow10(k as nat) <= value * pow10(shift as nat)) by (nonlinear_arith)
                    requires
                        pow10(k as nat) <= pow10(shift as nat),
                        value >= 1,
                ;
            }
            return None;
        }
    }
    Some(acc)
}

/// The nanoseconds that digits worth `d`, `fraction` of them behind the
/// point, stand for under an exponent as it was read. Where the exponent is
/// far above the limit, any value but zero stands for more than fits.
pub open spec fn magnitude_for(d: nat, fraction: int, exponent: Exponent) -> nat {
    match exponent {
        Exponent::FarAbove => d * pow10(19),
        Exponent::FarBelow => 0,
        Exponent::Within { value } => scaled(d, 9 + value - fraction),
    }
}

/// A magnitude, if it is at most [`MAGNITUDE_LIMIT`].
pub open spec fn within_limit(v: nat) -> Option<u128> {
    if v <= MAGNITUDE_LIMIT {
        Some(v as u128)
    } else {
        None
    }
}

/// Reading the exponent with a limit loses nothing: a number of at most
/// `total` digits stands for the same nanoseconds, or for too many all the
/// same.
pub proof fn lemma_far_exponents(d: nat, total: int, fraction: int, e: int)
    requires
        0 <= fraction <= total <= usize::MAX,
        d < pow10(total as nat),
    ensures
        within_limit(scaled(d, 9 + e - fraction)) == within_limit(
            magnitude_for(d, fraction, exponent_of(e)),
        ),
{
    let shift = 9 + e - fraction;
    reveal_with_fuel(pow10, 20);
    if e > EXPONENT_LIMIT {
        crate::arith::lemma_pow10_grows(19, shift as nat);
        assert(d >= 1 ==> d * pow10(shift as nat) >= pow10(shift as nat) && d * pow10(19) >= pow10(19))
            by (nonlinear_arith);
        assert(d == 0 ==> d * pow10(shift as nat) == 0 && d * pow10(19) == 0) by (nonlinear_arith);
    } else if e < -EXPONENT_LIMIT {
        let down = (-shift) as nat;
        crate::arith::lemma_pow10_grows(total as nat, down);
        vstd::arithmetic::div_mod::lemma_basic_div(d as int, pow10(down) as int);
    }
}

/// The nanoseconds that the digits of a number of seconds stand for, if
/// they are at most [`MAGNITUDE_LIMIT`].
#[verifier::rlimit(40)]
pub fn magnitude_of(bytes: &[u8], from: usize, dot: usize, frac: usize, mark: usize, exponent: Exponent) -> (r:
    Option<u128>)
    requires
        from <= dot <= frac <= mark <= bytes.len(),
        all_digits(bytes@.subrange(from as int, dot as int)),
        all_digits(bytes@.subrange(frac as int, mark as int)),
        exponent matches Exponent::Within { value } ==> -EXPONENT_LIMIT <= value <= EXPONENT_LIMIT,
    ensures
        r == within_limit(
            magnitude_for(
                digits_value(
                    bytes@.subrange(from as int, dot as int) + bytes@.subrange(frac as int, mark as int),
                ),
                mark - frac,
                exponent,
            ),
        ),
{
    let ghost digits = bytes@.subrange(from as int, dot as int) + bytes@.subrange(
        frac as int,
        mark as int,
    );
    let ghost d = digits_value(digits);
    let total: usize = (dot - from) + (mark - frac);
    proof {
        assert(digits.subrange(0, total as int) =~= digits);
        lemma_value_below_pow10(digits);
    }
    match exponent {
        Exponent::FarAbove => {
            proof {
                reveal_with_fuel(pow10, 20);
                assert(d >= 1 ==> d * pow10(19) >= pow10(19)) by (nonlinear_arith);
                assert(d == 0 ==> d * pow10(19) == 0) by (nonlinear_arith);
            }
            leading_digits(bytes, from, dot, frac, mark, total, 0)
        },
        Exponent::FarBelow => Some(0),
        Exponent::Within { value } => {
            let shift: i128 = 9 + value - (mark - frac) as i128;
            if shift >= 0 {
                match leading_digits(bytes, from, dot, frac, mark, total, MAGNITUDE_LIMIT) {
                    Some(all) => times_pow10(all, shift as u128, MAGNITUDE_LIMIT),
                    None => {
                        proof {
                            crate::arith::lemma_pow10_grows(0, shift as nat);
                            assert(d * pow10(shift as nat) >= d) by (nonlinear_arith)
                                requires
                                    pow10(shift as nat) >= 1,
                            ;
                        }
                        None
                    },
                }
            } else {
                let down: u128 = (-shift) as u128;
                if down >= total as u128 {
                    proof {
                        crate::arith::lemma_pow10_grows(total as nat, down as nat);
                        vstd::arithmetic::div_mod::lemma_basic_div(d as int, pow10(down as nat) as int);
                    }
                    Some(0)
                } else {
                    let keep: usize = total - down as usize;
                    proof {
                        lemma_value_of_prefix(digits, keep as int);
                    }
                    leading_digits(bytes, from, dot, frac, mark, keep, MAGNITUDE_LIMIT)
                }
            }
        },
    }
}

/// Where the parts of a number stand in its text.
#[derive(Clone, Copy, Debug, PartialEq, Eq, Structural)]
pub struct Parts {
    /// Where the digits before the point begin.
    pub from: usize,
    /// Where they end: at the point, or where the mantissa ends.
    pub dot: usize,
    /// Where the digits behind the point begin.
    pub frac: usize,
    /// Where the mantissa ends: at the `e`, or at the end of the text.
    pub mark: usize,
}

/// Finds the parts of a number.
#[verifier::rlimit(40)]
pub fn split_number(bytes: &[u8]) -> (p: Parts)
    ensures
        p.from <= p.dot <= p.frac <= p.mark <= bytes.len(),
        bytes@.subrange(p.from as int, p.dot as int) == whole_part(bytes@),
        bytes@.subrange(p.frac as int, p.mark as int) == fraction_part(bytes@),
        p.mark < bytes.len() ==> exponent_text(bytes@) == Some(
            bytes@.subrange(p.mark + 1, bytes.len() as int),
        ),
        p.mark == bytes.len() ==> exponent_text(bytes@).is_none(),
{
    let len: usize = bytes.len();
    let from: usize = if len > 0 && (bytes[0] == PLUS || bytes[0] == MINUS) {
        1
    } else {
        0
    };
    assert(bytes@.subrange(from as int, len as int) =~= after_sign(bytes@));
    let mark: usize = find_first(bytes, from, len, LOWER_E, UPPER_E);
    assert(bytes@.subrange(from as int, mark as int) =~= mantissa(bytes@));
    let dot: usize = find_first(bytes, from, mark, DOT, DOT);
    let frac: usize = if dot < mark {
        dot + 1
    } else {
        mark
    };
    assert(bytes@.subrange(from as int, dot as int) =~= whole_part(bytes@));
    assert(bytes@.subrange(frac as int, mark as int) =~= fraction_part(bytes@));
    if mark < len {
        assert(bytes@.subrange(mark + 1, len as int) =~= exponent_text(bytes@).unwrap());
    }
    Parts { from, dot, frac, mark }
}

/// Reads a decimal number of seconds as nanoseconds, if they fit in an
/// `i64`.
#[verifier::rlimit(40)]
pub fn parse_seconds(bytes: &[u8]) -> (r: Option<i64>)
    ensures
        r == as_nanos(bytes@),
{
    let len: usize = bytes.len();
    let negative: bool = len > 0 && bytes[0] == MINUS;
    let p = split_number(bytes);
    let ghost w = whole_part(bytes@);
    let ghost f = fraction_part(bytes@);
    let exponent: Exponent = if p.mark < len {
        match parse_exponent(bytes, p.mark + 1, len) {
            Some(e) => e,
            None => {
                return None;
            },
        }
    } else {
        Exponent::Within { value: 0 }
    };
    let total: usize = (p.dot - p.from) + (p.mark - p.frac);
    if total == 0 || !digits_only(bytes, p.from, p.dot) || !digits_only(bytes, p.frac, p.mark) {
        return None;
    }
    proof {
        let e = exponent_value(bytes@).unwrap();
        assert(exponent == exponent_of(e));
        lemma_value_below_pow10(w + f);
        lemma_far_exponents(digits_value(w + f), total as int, f.len() as int, e);
    }
    match magnitude_of(bytes, p.from, p.dot, p.frac, p.mark, exponent) {
        Some(v) => {
            if negative {
                Some((-(v as i128)) as i64)
            } else if v <= i64::MAX as u128 {
                Some(v as i64)
            } else {
                None
            }
        },
        None => None,
    }
}

} // verus!
