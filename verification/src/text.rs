//! Decimal text for physical quantities.
//!
//! User input arrives as ASCII text such as `"2464.0"`. This module parses it
//! into the crate's exact fixed-point representation: the denoted value
//! scaled by 10^24, held in a `u128`.
//!
//! The accepted grammar, after stripping leading and trailing ASCII
//! whitespace, is an optional `+` sign, then digits with at most one decimal
//! point and at least one digit (`"2464"`, `"2464."`, `".5"`, `"+0.25"`).
//! Fractional digits beyond the 24th are truncated, the full precision of
//! the scale. A well-formed number too large for the representation is
//! reported separately from malformed text, so a caller can classify it as
//! out of range rather than unreadable.

use vstd::prelude::*;
use vstd::arithmetic::div_mod::{lemma_fundamental_div_mod, lemma_multiply_divide_lt};
use vstd::arithmetic::mul::{lemma_mul_inequality, lemma_mul_is_associative,
    lemma_mul_is_commutative, lemma_mul_is_distributive_add_other_way,
    lemma_mul_is_distributive_sub_other_way, lemma_mul_left_inequality};

verus! {

/// ASCII whitespace, stripped from both ends of user input.
pub open spec fn is_space(b: u8) -> bool {
    b == 32 || (9 <= b && b <= 13)
}

/// ASCII decimal digit.
pub open spec fn is_digit(b: u8) -> bool {
    48 <= b <= 57
}

/// The input without its leading whitespace.
pub open spec fn ltrim(s: Seq<u8>) -> Seq<u8>
    decreases s.len(),
{
    if s.len() > 0 && is_space(s[0]) {
        ltrim(s.drop_first())
    } else {
        s
    }
}

/// The input without its trailing whitespace.
pub open spec fn rtrim(s: Seq<u8>) -> Seq<u8>
    decreases s.len(),
{
    if s.len() > 0 && is_space(s[s.len() - 1]) {
        rtrim(s.drop_last())
    } else {
        s
    }
}

/// The input without leading or trailing whitespace.
pub open spec fn trimmed(s: Seq<u8>) -> Seq<u8> {
    rtrim(ltrim(s))
}

/// The digits-and-point body of a number: the trimmed input without its
/// optional leading `+` sign.
pub open spec fn number_body(s: Seq<u8>) -> Seq<u8> {
    let t = trimmed(s);
    if t.len() > 0 && t[0] == 43 {
        t.drop_first()
    } else {
        t
    }
}

/// Every byte is an ASCII digit.
pub open spec fn all_digits(s: Seq<u8>) -> bool {
    forall|i: int| 0 <= i < s.len() ==> is_digit(s[i])
}

/// Index of the first decimal point, or the length if there is none.
pub open spec fn dot_index(s: Seq<u8>) -> int
    decreases s.len(),
{
    if s.len() == 0 {
        0
    } else if s[0] == 46 {
        0
    } else {
        1 + dot_index(s.drop_first())
    }
}

/// Well-formed number body: digits with at most one decimal point and at
/// least one digit.
pub open spec fn wf_decimal(body: Seq<u8>) -> bool {
    let d = dot_index(body);
    if d == body.len() {
        body.len() > 0 && all_digits(body)
    } else {
        all_digits(body.take(d)) && all_digits(body.skip(d + 1)) && body.len() >= 2
    }
}

/// Number denoted by a string of digits, most significant first.
pub open spec fn digits_value(s: Seq<u8>) -> int
    decreases s.len(),
{
    if s.len() == 0 {
        0
    } else {
        digits_value(s.drop_last()) * 10 + (s.last() - 48)
    }
}

/// 10 to the `e`.
pub open spec fn pow10(e: nat) -> int
    decreases e,
{
    if e == 0 {
        1
    } else {
        10 * pow10((e - 1) as nat)
    }
}

/// Integer part of a number body: everything before the decimal point.
pub open spec fn int_part(body: Seq<u8>) -> Seq<u8> {
    body.take(dot_index(body))
}

/// Fractional part of a number body: everything after the decimal point.
pub open spec fn frac_part(body: Seq<u8>) -> Seq<u8> {
    if dot_index(body) < body.len() {
        body.skip(dot_index(body) + 1)
    } else {
        Seq::empty()
    }
}

/// The fractional digits that carry value: the first 24.
pub open spec fn frac_digits(body: Seq<u8>) -> Seq<u8> {
    let f = frac_part(body);
    if f.len() <= 24 {
        f
    } else {
        f.take(24)
    }
}

/// Value of a well-formed number body, scaled by 10^24. Fractional digits
/// beyond the 24th are truncated.
pub open spec fn decimal_value_e24(body: Seq<u8>) -> int {
    let f24 = frac_digits(body);
    digits_value(int_part(body)) * pow10(24) + digits_value(f24) * pow10((24 - f24.len()) as nat)
}

/// Why text was rejected.
#[derive(Clone, Copy, Debug, PartialEq, Eq, Structural)]
pub enum ParseError {
    /// The text is not a decimal number of the accepted grammar.
    NotDecimal,
    /// The text is a well-formed number, but too large for the fixed-point
    /// representation.
    TooLarge,
}

/// Powers of ten are positive.
proof fn lemma_pow10_pos(e: nat)
    ensures
        pow10(e) >= 1,
    decreases e,
{
    if e > 0 {
        lemma_pow10_pos((e - 1) as nat);
    }
}

/// Powers of ten multiply by adding exponents.
proof fn lemma_pow10_adds(a: nat, b: nat)
    ensures
        pow10(a + b) == pow10(a) * pow10(b),
    decreases a,
{
    if a == 0 {
    } else {
        lemma_pow10_adds((a - 1) as nat, b);
        lemma_mul_is_associative(10, pow10((a - 1) as nat), pow10(b));
    }
}

/// Powers of ten are monotone.
proof fn lemma_pow10_le(a: nat, b: nat)
    requires
        a <= b,
    ensures
        pow10(a) <= pow10(b),
{
    lemma_pow10_adds(a, (b - a) as nat);
    lemma_pow10_pos((b - a) as nat);
    lemma_pow10_pos(a);
    lemma_mul_left_inequality(pow10(a), 1, pow10((b - a) as nat));
}

/// The concrete value of the 24th power of ten.
proof fn lemma_pow10_24()
    ensures
        pow10(24) == 1_000_000_000_000_000_000_000_000,
{
    assert(pow10(0) == 1);
    assert(pow10(1) == 10);
    assert(pow10(2) == 100);
    assert(pow10(3) == 1000);
    assert(pow10(4) == 10000);
    assert(pow10(5) == 100000);
    assert(pow10(6) == 1000000);
    assert(pow10(7) == 10000000);
    assert(pow10(8) == 100000000);
    assert(pow10(9) == 1000000000);
    assert(pow10(10) == 10000000000);
    assert(pow10(11) == 100000000000);
    assert(pow10(12) == 1000000000000);
    assert(pow10(13) == 10000000000000);
    assert(pow10(14) == 100000000000000);
    assert(pow10(15) == 1000000000000000);
    assert(pow10(16) == 10000000000000000);
    assert(pow10(17) == 100000000000000000);
    assert(pow10(18) == 1000000000000000000);
    assert(pow10(19) == 10000000000000000000);
    assert(pow10(20) == 100000000000000000000);
    assert(pow10(21) == 1000000000000000000000);
    assert(pow10(22) == 10000000000000000000000);
    assert(pow10(23) == 100000000000000000000000);
    assert(pow10(24) == 1000000000000000000000000);
}

/// A digit string denotes a non-negative number.
proof fn lemma_digits_nonneg(s: Seq<u8>)
    requires
        all_digits(s),
    ensures
        digits_value(s) >= 0,
    decreases s.len(),
{
    if s.len() > 0 {
        assert(all_digits(s.drop_last()));
        lemma_digits_nonneg(s.drop_last());
    }
}

/// Reading one more digit multiplies the prefix value by ten and adds it.
proof fn lemma_digits_take_step(s: Seq<u8>, j: int)
    requires
        0 <= j < s.len(),
    ensures
        digits_value(s.take(j + 1)) == digits_value(s.take(j)) * 10 + (s[j] - 48),
{
    assert(s.take(j + 1).drop_last() =~= s.take(j));
    assert(s.take(j + 1).last() == s[j]);
}

/// A digit string's value never shrinks as the prefix grows.
proof fn lemma_digits_prefix_le(s: Seq<u8>, j: int, jj: int)
    requires
        0 <= j <= jj <= s.len(),
        all_digits(s.take(jj)),
    ensures
        0 <= digits_value(s.take(j)) <= digits_value(s.take(jj)),
    decreases jj - j,
{
    assert(all_digits(s.take(j))) by {
        assert(forall|i: int| 0 <= i < j ==> s.take(j)[i] == s.take(jj)[i]);
    }
    lemma_digits_nonneg(s.take(j));
    if j < jj {
        lemma_digits_prefix_le(s, j, jj - 1);
        assert(all_digits(s.take(jj - 1))) by {
            assert(forall|i: int| 0 <= i < jj - 1 ==> s.take(jj - 1)[i] == s.take(jj)[i]);
        }
        lemma_digits_nonneg(s.take(jj - 1));
        lemma_digits_take_step(s, jj - 1);
    }
}

/// The first decimal point is where no earlier byte is one.
proof fn lemma_dot_index_of(s: Seq<u8>, p: int)
    requires
        0 <= p <= s.len(),
        forall|j: int| 0 <= j < p ==> s[j] != 46,
        p == s.len() || s[p] == 46,
    ensures
        dot_index(s) == p,
    decreases s.len(),
{
    if s.len() == 0 {
    } else if s[0] == 46 {
        assert(p == 0);
    } else {
        assert(p >= 1);
        let t = s.drop_first();
        assert(forall|j: int| 0 <= j < p - 1 ==> t[j] != 46);
        lemma_dot_index_of(t, p - 1);
    }
}

/// Without an earlier decimal point, the first one is at or beyond `p`.
proof fn lemma_dot_index_ge(s: Seq<u8>, p: int)
    requires
        0 <= p <= s.len(),
        forall|j: int| 0 <= j < p ==> s[j] != 46,
    ensures
        dot_index(s) >= p,
    decreases s.len(),
{
    if s.len() == 0 || p == 0 {
        lemma_dot_index_le(s);
    } else if s[0] == 46 {
        assert(s[0] != 46);
    } else {
        let t = s.drop_first();
        assert(forall|j: int| 0 <= j < p - 1 ==> t[j] != 46);
        lemma_dot_index_ge(t, p - 1);
    }
}

/// The first decimal point lies within the string.
proof fn lemma_dot_index_le(s: Seq<u8>)
    ensures
        0 <= dot_index(s) <= s.len(),
    decreases s.len(),
{
    if s.len() > 0 && s[0] != 46 {
        lemma_dot_index_le(s.drop_first());
    }
}

/// Leading whitespace ends exactly where the first non-space byte stands.
proof fn lemma_ltrim_at(s: Seq<u8>, p: int)
    requires
        0 <= p <= s.len(),
        forall|j: int| 0 <= j < p ==> is_space(s[j]),
        p == s.len() || !is_space(s[p]),
    ensures
        ltrim(s) == s.skip(p),
    decreases s.len(),
{
    if p == 0 {
        assert(s.skip(0) =~= s);
    } else {
        let t = s.drop_first();
        assert(forall|j: int| 0 <= j < p - 1 ==> is_space(t[j]));
        lemma_ltrim_at(t, p - 1);
        assert(t.skip(p - 1) =~= s.skip(p));
    }
}

/// Trailing whitespace starts exactly after the last non-space byte.
proof fn lemma_rtrim_at(s: Seq<u8>, p: int)
    requires
        0 <= p <= s.len(),
        forall|j: int| p <= j < s.len() ==> is_space(s[j]),
        p == 0 || !is_space(s[p - 1]),
    ensures
        rtrim(s) == s.take(p),
    decreases s.len(),
{
    if p == s.len() {
        assert(s.take(p) =~= s);
    } else {
        let t = s.drop_last();
        assert(forall|j: int| p <= j < t.len() ==> is_space(t[j]));
        lemma_rtrim_at(t, p);
        assert(t.take(p) =~= s.take(p));
    }
}

/// A byte that is neither digit nor point, preceded only by digits, makes
/// the body malformed.
proof fn lemma_junk_no_dot(body: Seq<u8>, p: int)
    requires
        0 <= p < body.len(),
        forall|t: int| 0 <= t < p ==> is_digit(body[t]),
        !is_digit(body[p]),
        body[p] != 46,
    ensures
        !wf_decimal(body),
{
    assert(forall|t: int| 0 <= t <= p ==> body[t] != 46);
    lemma_dot_index_ge(body, p + 1);
    let d = dot_index(body);
    lemma_dot_index_le(body);
    if d == body.len() {
        assert(!all_digits(body));
    } else {
        assert(body.take(d)[p] == body[p]);
        assert(!all_digits(body.take(d)));
    }
}

/// A non-digit after the decimal point makes the body malformed.
proof fn lemma_junk_after_dot(body: Seq<u8>, d: int, p: int)
    requires
        0 <= d < p < body.len(),
        forall|t: int| 0 <= t < d ==> is_digit(body[t]),
        body[d] == 46,
        !is_digit(body[p]),
    ensures
        !wf_decimal(body),
{
    lemma_dot_index_of(body, d);
    assert(body.skip(d + 1)[p - d - 1] == body[p]);
    assert(!all_digits(body.skip(d + 1)));
}

/// A body without a single digit is malformed.
proof fn lemma_no_digits(body: Seq<u8>)
    requires
        body.len() == 0 || (body.len() == 1 && body[0] == 46),
    ensures
        !wf_decimal(body),
{
    if body.len() == 1 {
        lemma_dot_index_of(body, 0);
    }
}

/// A body of digits around one decimal point, with a digit somewhere, is
/// well formed; its parts are the runs on each side of the point.
proof fn lemma_wf_with_dot(body: Seq<u8>, d: int)
    requires
        0 <= d < body.len(),
        body.len() >= 2,
        forall|t: int| 0 <= t < d ==> is_digit(body[t]),
        body[d] == 46,
        forall|t: int| d < t < body.len() ==> is_digit(body[t]),
    ensures
        wf_decimal(body),
        dot_index(body) == d,
        int_part(body) == body.take(d),
        frac_part(body) == body.skip(d + 1),
        all_digits(int_part(body)),
        all_digits(frac_part(body)),
{
    lemma_dot_index_of(body, d);
    assert(all_digits(body.take(d))) by {
        assert(forall|t: int| 0 <= t < d ==> body.take(d)[t] == body[t]);
    }
    assert(all_digits(body.skip(d + 1))) by {
        assert(forall|t: int|
            0 <= t < body.len() - d - 1 ==> #[trigger] body.skip(d + 1)[t] == body[t + d + 1]);
    }
}

/// A non-empty body of digits alone is well formed and is its own integer
/// part.
proof fn lemma_wf_all_digits(body: Seq<u8>)
    requires
        body.len() >= 1,
        all_digits(body),
    ensures
        wf_decimal(body),
        dot_index(body) == body.len(),
        int_part(body) == body,
        frac_part(body) == Seq::<u8>::empty(),
{
    assert(forall|t: int| 0 <= t < body.len() ==> body[t] != 46);
    lemma_dot_index_of(body, body.len() as int);
    assert(body.take(body.len() as int) =~= body);
}

/// When the integer part alone exceeds the representation, so does the value.
proof fn lemma_int_part_exceeds(body: Seq<u8>)
    requires
        wf_decimal(body),
        digits_value(int_part(body)) > u128::MAX,
    ensures
        decimal_value_e24(body) > u128::MAX,
{
    let iv = digits_value(int_part(body));
    let f24 = frac_digits(body);
    lemma_dot_index_le(body);
    assert(all_digits(f24)) by {
        let f = frac_part(body);
        if dot_index(body) == body.len() {
            assert(f24.len() == 0);
        } else {
            assert(all_digits(f));
            if f.len() > 24 {
                assert(forall|i: int| 0 <= i < 24 ==> f.take(24)[i] == f[i]);
            }
        }
    }
    lemma_digits_nonneg(f24);
    lemma_pow10_pos((24 - f24.len()) as nat);
    lemma_pow10_pos(24);
    lemma_mul_left_inequality(iv, 1, pow10(24));
    lemma_mul_inequality(0, digits_value(f24), pow10((24 - f24.len()) as nat));
}

/// Whitespace-trimming bounds of the text: `trimmed` is exactly the bytes
/// between them.
#[verifier::loop_isolation(false)]
fn trim_bounds(text: &[u8]) -> (r: (usize, usize))
    ensures
        0 <= r.0 <= r.1 <= text@.len(),
        trimmed(text@) == text@.subrange(r.0 as int, r.1 as int),
{
    let n: usize = text.len();
    let mut lo: usize = 0;
    while lo < n && (text[lo] == 32 || (9 <= text[lo] && text[lo] <= 13))
        invariant
            0 <= lo <= n,
            forall|j: int| 0 <= j < lo ==> is_space(text@[j]),
        decreases n - lo,
    {
        lo = lo + 1;
    }
    let mut hi: usize = n;
    while hi > lo && (text[hi - 1] == 32 || (9 <= text[hi - 1] && text[hi - 1] <= 13))
        invariant
            lo <= hi <= n,
            forall|j: int| hi <= j < n ==> is_space(text@[j]),
        decreases hi,
    {
        hi = hi - 1;
    }
    proof {
        lemma_ltrim_at(text@, lo as int);
        let u = text@.skip(lo as int);
        assert(forall|j: int|
            hi - lo <= j < u.len() ==> #[trigger] is_space(u[j]) == is_space(text@[j + lo]));
        lemma_rtrim_at(u, hi - lo);
        assert(u.take(hi - lo) =~= text@.subrange(lo as int, hi as int));
    }
    (lo, hi)
}

/// First index in `from..to` that holds no digit, or `to`.
#[verifier::loop_isolation(false)]
fn scan_digits(text: &[u8], from: usize, to: usize) -> (j: usize)
    requires
        from <= to <= text@.len(),
    ensures
        from <= j <= to,
        forall|t: int| from <= t < j ==> is_digit(text@[t]),
        j < to ==> !is_digit(text@[j as int]),
    decreases to - from,
{
    let mut j: usize = from;
    while j < to && 48 <= text[j] && text[j] <= 57
        invariant
            from <= j <= to,
            forall|t: int| from <= t < j ==> is_digit(text@[t]),
        decreases to - j,
    {
        j = j + 1;
    }
    j
}

/// Value of the digit run `from..to`, or nothing when it exceeds a `u128`.
#[verifier::loop_isolation(false)]
fn digits_to_value(text: &[u8], from: usize, to: usize) -> (r: Option<u128>)
    requires
        from <= to <= text@.len(),
        forall|t: int| from <= t < to ==> is_digit(text@[t]),
    ensures
        r matches Some(v) ==> v == digits_value(text@.subrange(from as int, to as int)),
        r is None ==> digits_value(text@.subrange(from as int, to as int)) > u128::MAX,
{
    let ghost run = text@.subrange(from as int, to as int);
    proof {
        assert(all_digits(run));
        assert(run.take(0int) =~= text@.subrange(from as int, from as int));
    }
    let mut acc: u128 = 0;
    let mut t: usize = from;
    while t < to
        invariant
            from <= t <= to,
            acc == digits_value(run.take(t - from)),
        decreases to - t,
    {
        let d: u8 = text[t] - 48;
        proof {
            lemma_digits_take_step(run, t - from);
            lemma_digits_prefix_le(run, t - from + 1, run.len() as int);
            assert(run.take(run.len() as int) =~= run);
            lemma_fundamental_div_mod((u128::MAX - d) as int, 10);
        }
        if acc > (u128::MAX - d as u128) / 10 {
            return None;
        }
        proof {
            lemma_mul_inequality(acc as int, ((u128::MAX - d as u128) / 10) as int, 10);
        }
        acc = acc * 10 + d as u128;
        t = t + 1;
    }
    proof {
        assert(run.take(run.len() as int) =~= run);
    }
    Some(acc)
}

/// Value and count of the fractional digits that carry value: the first 24
/// of the run `from..to`.
#[verifier::loop_isolation(false)]
fn frac_digits_value(text: &[u8], from: usize, to: usize) -> (r: (u128, usize))
    requires
        from <= to <= text@.len(),
        forall|t: int| from <= t < to ==> is_digit(text@[t]),
    ensures
        r.1 == if to - from <= 24 { to - from } else { 24int },
        r.0 == digits_value(text@.subrange(from as int, from as int + r.1 as int)),
        r.0 < pow10(r.1 as nat),
{
    let ghost run = text@.subrange(from as int, to as int);
    proof {
        assert(run.take(0int) =~= text@.subrange(from as int, from as int));
    }
    let mut acc: u128 = 0;
    let mut c: usize = 0;
    while from + c < to && c < 24
        invariant
            0 <= c <= 24,
            from + c <= to,
            acc == digits_value(text@.subrange(from as int, from as int + c as int)),
            acc < pow10(c as nat),
        decreases to - from - c,
    {
        let d: u8 = text[from + c] - 48;
        proof {
            let pre = text@.subrange(from as int, from as int + c as int);
            assert(pre =~= run.take(c as int));
            lemma_digits_take_step(run, c as int);
            assert(run.take(c + 1int) =~= text@.subrange(from as int, from as int + c + 1));
            lemma_pow10_le((c + 1) as nat, 24);
            lemma_pow10_24();
        }
        acc = acc * 10 + d as u128;
        c = c + 1;
    }
    (acc, c)
}

/// 10 to the `e`, as a machine word.
#[verifier::loop_isolation(false)]
fn pow10_u128(e: usize) -> (p: u128)
    requires
        e <= 24,
    ensures
        p == pow10(e as nat),
{
    let mut p: u128 = 1;
    let mut i: usize = 0;
    while i < e
        invariant
            0 <= i <= e <= 24,
            p == pow10(i as nat),
        decreases e - i,
    {
        proof {
            lemma_pow10_le((i + 1) as nat, 24);
            lemma_pow10_24();
        }
        p = p * 10;
        i = i + 1;
    }
    p
}

/// Parse decimal text into the exact fixed-point value it denotes, scaled
/// by 10^24.
///
/// Returns the value when the text (after trimming and an optional `+`) is a
/// well-formed number that fits a `u128`; `NotDecimal` exactly when the text
/// is malformed; `TooLarge` exactly when it is well formed but too large.
#[verifier::loop_isolation(false)]
#[verifier::rlimit(60)]
pub fn parse_decimal(text: &[u8]) -> (r: Result<u128, ParseError>)
    ensures
        r matches Ok(v) ==> wf_decimal(number_body(text@)) && v == decimal_value_e24(
            number_body(text@),
        ),
        r == Err::<u128, ParseError>(ParseError::NotDecimal) <==> !wf_decimal(number_body(text@)),
        r == Err::<u128, ParseError>(ParseError::TooLarge) <==> (wf_decimal(number_body(text@))
            && decimal_value_e24(number_body(text@)) > u128::MAX),
{
    let (lo, hi) = trim_bounds(text);
    // optional sign
    let bstart: usize = if lo < hi && text[lo] == 43 {
        lo + 1
    } else {
        lo
    };
    let ghost body = text@.subrange(bstart as int, hi as int);
    proof {
        if lo < hi && text@[lo as int] == 43 {
            assert(trimmed(text@).drop_first() =~= body);
        }
        assert(number_body(text@) == body);
    }
    // shape: integer digits, optional point, fraction digits, nothing else
    let j: usize = scan_digits(text, bstart, hi);
    let has_dot: bool = j < hi && text[j] == 46;
    let k: usize = if has_dot {
        scan_digits(text, j + 1, hi)
    } else {
        j
    };
    if k < hi {
        proof {
            if has_dot {
                lemma_junk_after_dot(body, j - bstart, k - bstart);
            } else {
                lemma_junk_no_dot(body, j - bstart);
            }
        }
        return Err(ParseError::NotDecimal);
    }
    if j == bstart && (!has_dot || k == j + 1) {
        proof {
            lemma_no_digits(body);
        }
        return Err(ParseError::NotDecimal);
    }
    proof {
        if has_dot {
            lemma_wf_with_dot(body, j - bstart);
            assert(int_part(body) =~= text@.subrange(bstart as int, j as int));
            assert(frac_part(body) =~= text@.subrange(j + 1 as int, hi as int));
        } else {
            lemma_wf_all_digits(body);
            assert(int_part(body) =~= text@.subrange(bstart as int, j as int));
        }
        lemma_pow10_24();
        lemma_pow10_pos(24);
    }
    // integer part
    let ipart: u128 = match digits_to_value(text, bstart, j) {
        Some(v) => v,
        None => {
            proof {
                lemma_int_part_exceeds(body);
            }
            return Err(ParseError::TooLarge);
        },
    };
    // fractional part, scaled to the full 24 places
    let (fpart, fcount): (u128, usize) = if has_dot {
        frac_digits_value(text, j + 1, hi)
    } else {
        (0, 0)
    };
    proof {
        if has_dot {
            assert(frac_digits(body) =~= text@.subrange(j + 1 as int, j + 1 + fcount as int));
        } else {
            assert(frac_digits(body) =~= Seq::<u8>::empty());
        }
        assert(fpart == digits_value(frac_digits(body)));
        assert(fcount == frac_digits(body).len());
    }
    let scale: u128 = pow10_u128(24 - fcount);
    proof {
        lemma_mul_inequality(fpart as int, pow10(fcount as nat) - 1, scale as int);
        lemma_mul_is_distributive_sub_other_way(scale as int, pow10(fcount as nat), 1);
        lemma_pow10_adds(fcount as nat, (24 - fcount) as nat);
        lemma_pow10_pos((24 - fcount) as nat);
        lemma_mul_inequality(0, fpart as int, scale as int);
        assert(fpart * scale < pow10(24));
    }
    let fscaled: u128 = fpart * scale;
    proof {
        lemma_fundamental_div_mod(
            (u128::MAX - fscaled) as int,
            1_000_000_000_000_000_000_000_000,
        );
    }
    if ipart > (u128::MAX - fscaled) / 1_000_000_000_000_000_000_000_000 {
        proof {
            lemma_mul_left_inequality(ipart as int, 1, pow10(24));
        }
        return Err(ParseError::TooLarge);
    }
    proof {
        lemma_mul_inequality(
            ipart as int,
            ((u128::MAX - fscaled) / 1_000_000_000_000_000_000_000_000) as int,
            1_000_000_000_000_000_000_000_000,
        );
    }
    Ok(ipart * 1_000_000_000_000_000_000_000_000 + fscaled)
}

/// Low-digit-first value of a digit string: the reading order in which
/// digits are peeled off a number.
pub open spec fn digits_value_lsb(s: Seq<u8>) -> int
    decreases s.len(),
{
    if s.len() == 0 {
        0
    } else {
        (s[0] - 48) + 10 * digits_value_lsb(s.drop_first())
    }
}

/// Appending a digit to a low-first string adds it at the next place value.
proof fn lemma_lsb_push(s: Seq<u8>, d: u8)
    ensures
        digits_value_lsb(s.push(d)) == digits_value_lsb(s) + (d - 48) * pow10(s.len() as nat),
    decreases s.len(),
{
    if s.len() == 0 {
        assert(s.push(d) =~= seq![d]);
        assert(seq![d].drop_first() =~= Seq::<u8>::empty());
        assert(digits_value_lsb(seq![d]) == (d - 48) + 10 * digits_value_lsb(
            seq![d].drop_first(),
        ));
        assert(pow10(0) == 1);
    } else {
        assert(s.push(d).drop_first() =~= s.drop_first().push(d));
        assert(s.push(d)[0] == s[0]);
        lemma_lsb_push(s.drop_first(), d);
        let p = pow10((s.len() - 1) as nat);
        assert(pow10(s.len() as nat) == 10 * p);
        assert(10 * ((d - 48) * p) == (d - 48) * (10 * p)) by {
            lemma_mul_is_associative(10, (d - 48) as int, p);
            lemma_mul_is_commutative(10, (d - 48) as int);
            lemma_mul_is_associative((d - 48) as int, 10, p);
        }
        assert(digits_value_lsb(s.push(d)) == (s[0] - 48) + 10 * digits_value_lsb(
            s.drop_first().push(d),
        ));
    }
}

/// Reversing a low-first digit string gives the ordinary reading order.
proof fn lemma_digits_flip(b: Seq<u8>)
    ensures
        digits_value(b.reverse()) == digits_value_lsb(b),
    decreases b.len(),
{
    if b.len() > 0 {
        let r = b.reverse();
        assert(r.drop_last() =~= b.drop_first().reverse());
        lemma_digits_flip(b.drop_first());
        assert(r.last() == b[0]);
    }
}

/// Zero digits at the low end only scale the remaining value up.
proof fn lemma_lsb_drop_zeros(s: Seq<u8>, z: int)
    requires
        0 <= z <= s.len(),
        forall|t: int| 0 <= t < z ==> s[t] == 48,
    ensures
        digits_value_lsb(s) == digits_value_lsb(s.skip(z)) * pow10(z as nat),
    decreases z,
{
    if z == 0 {
        assert(s.skip(0) =~= s);
        lemma_mul_is_commutative(digits_value_lsb(s), 1);
    } else {
        let t = s.drop_first();
        assert(forall|j: int| 0 <= j < z - 1 ==> t[j] == 48);
        lemma_lsb_drop_zeros(t, z - 1);
        assert(t.skip(z - 1) =~= s.skip(z));
        let p = pow10((z - 1) as nat);
        let v = digits_value_lsb(s.skip(z));
        assert(10 * (v * p) == v * (10 * p)) by {
            lemma_mul_is_associative(10, v, p);
            lemma_mul_is_commutative(10, v);
            lemma_mul_is_associative(v, 10, p);
        }
    }
}

/// Where the first decimal point lies, a decimal point stands.
proof fn lemma_dot_index_char(s: Seq<u8>)
    ensures
        dot_index(s) < s.len() ==> s[dot_index(s)] == 46,
    decreases s.len(),
{
    if s.len() > 0 && s[0] != 46 {
        lemma_dot_index_char(s.drop_first());
        lemma_dot_index_le(s.drop_first());
    }
}

/// A well-formed number body carries no whitespace and no sign: it is its
/// own trimmed form.
proof fn lemma_body_of_wf(s: Seq<u8>)
    requires
        wf_decimal(s),
    ensures
        number_body(s) == s,
{
    let d = dot_index(s);
    lemma_dot_index_le(s);
    lemma_dot_index_char(s);
    // the first and last bytes are digits or the point, never whitespace
    assert(s[0] == 46 || is_digit(s[0])) by {
        if d < s.len() && d > 0 {
            assert(s.take(d)[0] == s[0]);
        }
    }
    assert(s[s.len() - 1] == 46 || is_digit(s[s.len() - 1])) by {
        if d < s.len() && d < s.len() - 1 {
            assert(s.skip(d + 1)[s.len() - 1 - (d + 1)] == s[s.len() - 1]);
        }
    }
    lemma_ltrim_at(s, 0);
    assert(s.skip(0) =~= s);
    lemma_rtrim_at(s, s.len() as int);
    assert(s.take(s.len() as int) =~= s);
}

/// Canonical decimal text of a fixed-point value (unit scaled by 10^24): the
/// integer digits, then — when the value has a fractional part — a decimal
/// point and the fractional digits up to the last nonzero one.
///
/// The output is a well-formed number body denoting exactly the input, so
/// [`parse_decimal`] reads it back to the same value; it carries no leading
/// zero (except a bare `0` integer part) and no trailing zero after the
/// point.
#[verifier::loop_isolation(false)]
#[verifier::rlimit(80)]
pub fn decimal_text_e24(value: u128) -> (out: Vec<u8>)
    ensures
        wf_decimal(out@),
        number_body(out@) == out@,
        decimal_value_e24(out@) == value,
        int_part(out@).len() == 1 || int_part(out@)[0] != 48,
        dot_index(out@) < out@.len() ==> out@[out@.len() - 1] != 48,
{
    proof {
        lemma_pow10_24();
        lemma_fundamental_div_mod(value as int, 1_000_000_000_000_000_000_000_000);
    }
    let ipart: u128 = value / 1_000_000_000_000_000_000_000_000;
    let fpart: u128 = value % 1_000_000_000_000_000_000_000_000;
    // integer digits, lowest place first
    let mut rev_int: Vec<u8> = Vec::new();
    let mut n: u128 = ipart;
    proof {
        lemma_fundamental_div_mod(n as int, 10);
        assert(seq![((n % 10) as u8 + 48) as u8].drop_first() =~= Seq::<u8>::empty());
    }
    rev_int.push((n % 10) as u8 + 48);
    n = n / 10;
    proof {
        assert(rev_int@ =~= seq![((ipart % 10) as u8 + 48) as u8]);
        assert(digits_value_lsb(rev_int@) == ipart % 10 + 10 * digits_value_lsb(
            rev_int@.drop_first(),
        ));
        assert(pow10(0) == 1);
        assert(pow10(1) == 10);
    }
    while n > 0
        invariant
            1 <= rev_int@.len(),
            forall|t: int| 0 <= t < rev_int@.len() ==> is_digit(#[trigger] rev_int@[t]),
            digits_value_lsb(rev_int@) + n * pow10(rev_int@.len() as nat) == ipart,
            n > 0 || rev_int@.len() == 1 || rev_int@.last() != 48,
        decreases n,
    {
        let ghost before = rev_int@;
        let d: u8 = (n % 10) as u8 + 48;
        proof {
            lemma_lsb_push(before, d);
            lemma_fundamental_div_mod(n as int, 10);
            let p = pow10(before.len() as nat);
            assert((n / 10) * (10 * p) == ((n / 10) * 10) * p) by {
                lemma_mul_is_associative((n / 10) as int, 10, p);
            }
            assert(((n / 10) * 10 + n % 10) * p == ((n / 10) * 10) * p + (n % 10) * p) by {
                lemma_mul_is_distributive_add_other_way(
                    p,
                    ((n / 10) * 10) as int,
                    (n % 10) as int,
                );
            }
        }
        rev_int.push(d);
        n = n / 10;
    }
    // fractional digits, lowest place first, all 24 places
    let mut rev_frac: Vec<u8> = Vec::new();
    let mut f: u128 = fpart;
    let mut c: usize = 0;
    while c < 24
        invariant
            c == rev_frac@.len(),
            0 <= c <= 24,
            forall|t: int| 0 <= t < rev_frac@.len() ==> is_digit(#[trigger] rev_frac@[t]),
            digits_value_lsb(rev_frac@) + f * pow10(c as nat) == fpart,
            f < pow10((24 - c) as nat),
        decreases 24 - c,
    {
        let ghost before = rev_frac@;
        let d: u8 = (f % 10) as u8 + 48;
        proof {
            lemma_lsb_push(before, d);
            lemma_fundamental_div_mod(f as int, 10);
            let p = pow10(c as nat);
            assert((f / 10) * (10 * p) == ((f / 10) * 10) * p) by {
                lemma_mul_is_associative((f / 10) as int, 10, p);
            }
            assert(((f / 10) * 10 + f % 10) * p == ((f / 10) * 10) * p + (f % 10) * p) by {
                lemma_mul_is_distributive_add_other_way(
                    p,
                    ((f / 10) * 10) as int,
                    (f % 10) as int,
                );
            }
            lemma_multiply_divide_lt(f as int, 10, pow10((24 - c - 1) as nat));
        }
        rev_frac.push(d);
        f = f / 10;
        c = c + 1;
    }
    proof {
        assert(digits_value_lsb(rev_frac@) == fpart);
    }
    // trailing zeros of the value stand at the low end here
    let mut z: usize = 0;
    while z < 24 && rev_frac[z] == 48
        invariant
            0 <= z <= 24,
            forall|t: int| 0 <= t < z ==> rev_frac@[t] == 48,
        decreases 24 - z,
    {
        z = z + 1;
    }
    // assemble: integer digits highest first, then the point and fraction
    let ilen: usize = rev_int.len();
    let mut out: Vec<u8> = Vec::new();
    let mut t: usize = ilen;
    while t > 0
        invariant
            0 <= t <= ilen,
            out@.len() == ilen - t,
            forall|j: int| 0 <= j < out@.len() ==> out@[j] == rev_int@[ilen - 1 - j],
        decreases t,
    {
        t = t - 1;
        out.push(rev_int[t]);
    }
    proof {
        assert(out@ =~= rev_int@.reverse());
        lemma_digits_flip(rev_int@);
    }
    let ghost int_text = out@;
    if z < 24 {
        out.push(46);
        let mut t2: usize = 24;
        while t2 > z
            invariant
                z <= t2 <= 24,
                out@.len() == ilen + 1 + (24 - t2),
                out@.take(ilen as int) == int_text,
                out@[ilen as int] == 46u8,
                forall|j: int|
                    0 <= j < 24 - t2 ==> #[trigger] out@[ilen + 1 + j] == rev_frac@[23 - j],
            decreases t2,
        {
            let ghost before = out@;
            t2 = t2 - 1;
            out.push(rev_frac[t2]);
            proof {
                assert(out@.take(ilen as int) =~= before.take(ilen as int));
            }
        }
        proof {
            let body = out@;
            let d = ilen as int;
            assert(forall|j: int| 0 <= j < d ==> is_digit(#[trigger] body[j])) by {
                assert(forall|j: int| 0 <= j < d ==> body[j] == int_text[j]);
            }
            assert forall|j: int| d < j < body.len() implies is_digit(#[trigger] body[j]) by {
                assert(body[d + 1 + (j - d - 1)] == rev_frac@[23 - (j - d - 1)]);
            }
            lemma_wf_with_dot(body, d);
            // the integer part reads back as the integer digits
            assert(int_part(body) =~= int_text);
            // the fractional part is the reversed tail of the low-first digits
            let tail = rev_frac@.skip(z as int).reverse();
            assert forall|j: int| 0 <= j < 24 - z implies body.skip(d + 1)[j] == tail[j] by {
                assert(body[d + 1 + j] == rev_frac@[23 - j]);
                assert(tail[j] == rev_frac@.skip(z as int)[(24 - z) - 1 - j]);
            }
            assert(frac_part(body) =~= tail);
            assert(frac_digits(body) == frac_part(body));
            lemma_digits_flip(rev_frac@.skip(z as int));
            lemma_lsb_drop_zeros(rev_frac@, z as int);
            assert(decimal_value_e24(body) == ipart * pow10(24) + digits_value_lsb(
                rev_frac@.skip(z as int),
            ) * pow10(z as nat));
            lemma_body_of_wf(body);
            // canonical: leading integer digit and last fractional digit
            assert(int_text[0] == rev_int@[ilen - 1]);
            assert(body[ilen + 1 + (23 - z as int)] == rev_frac@[z as int]);
        }
    } else {
        proof {
            let body = out@;
            lemma_lsb_drop_zeros(rev_frac@, 24);
            assert(rev_frac@.skip(24) =~= Seq::<u8>::empty());
            assert(fpart == 0);
            assert(forall|j: int| 0 <= j < body.len() ==> is_digit(#[trigger] body[j])) by {
                assert(forall|j: int| 0 <= j < body.len() ==> body[j] == int_text[j]);
            }
            lemma_wf_all_digits(body);
            assert(frac_digits(body) =~= Seq::<u8>::empty());
            lemma_body_of_wf(body);
            assert(body[0] == rev_int@[ilen - 1]);
        }
    }
    out
}

} // verus!
