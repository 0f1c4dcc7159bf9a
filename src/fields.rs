//! Integer tokens of the compact stream and fixed-point text of the RINEX stream.
use vstd::prelude::*;

verus! {

pub const MINUS: u8 = 45;

pub const PLUS: u8 = 43;

pub const DOT: u8 = 46;

pub const ZERO: u8 = 48;

/// Re-initialization marker between an order digit and its seed.
pub const REINIT: u8 = 38;

pub open spec fn is_digit(c: u8) -> bool {
    48 <= c <= 57
}

pub open spec fn all_digits(s: Seq<u8>) -> bool {
    forall|i: int| 0 <= i < s.len() ==> is_digit(#[trigger] s[i])
}

/// Value of a run of decimal digits, most significant first.
pub open spec fn digits_value(s: Seq<u8>) -> nat
    decreases s.len(),
{
    if s.len() == 0 {
        0
    } else {
        digits_value(s.drop_last()) * 10 + (s.last() - 48) as nat
    }
}

/// The integer written by `s`: an optional sign and at least one digit.
pub open spec fn int_text_value(s: Seq<u8>) -> Option<int> {
    if s.len() > 0 && (s[0] == MINUS || s[0] == PLUS) {
        let rest = s.subrange(1, s.len() as int);
        if rest.len() > 0 && all_digits(rest) {
            if s[0] == MINUS {
                Some(-digits_value(rest))
            } else {
                Some(digits_value(rest) as int)
            }
        } else {
            None
        }
    } else if s.len() > 0 && all_digits(s) {
        Some(digits_value(s) as int)
    } else {
        None
    }
}

/// The `i64` written by `s`, if it is an integer within range.
pub open spec fn int_token(s: Seq<u8>) -> Option<i64> {
    match int_text_value(s) {
        Some(v) => if i64::MIN <= v <= i64::MAX {
            Some(v as i64)
        } else {
            None
        },
        None => None,
    }
}

/// A re-initialization token `n&value`: an order digit, the marker, and the seed.
pub open spec fn reinit_token(s: Seq<u8>) -> Option<(usize, i64)> {
    if s.len() > 2 && s[1] == REINIT && is_digit(s[0]) {
        match int_token(s.subrange(2, s.len() as int)) {
            Some(v) => Some(((s[0] - 48) as usize, v)),
            None => None,
        }
    } else {
        None
    }
}

pub(crate) proof fn lemma_digits_value_push(s: Seq<u8>, c: u8)
    ensures
        digits_value(s.push(c)) == digits_value(s) * 10 + (c - 48) as nat,
{
    assert(s.push(c).drop_last() =~= s);
}

/// Reads a run of digits starting at `start`; `None` once the value passes 2^63.
fn parse_digits(s: &[u8], start: usize) -> (r: Option<u64>)
    requires
        start < s@.len(),
        all_digits(s@.subrange(start as int, s@.len() as int)),
    ensures
        match r {
            Some(v) => v as int == digits_value(s@.subrange(start as int, s@.len() as int))
                && v <= 9223372036854775808u64,
            None => digits_value(s@.subrange(start as int, s@.len() as int))
                > 9223372036854775808u64,
        },
{
    let mut acc: u128 = 0;
    let mut i: usize = start;
    while i < s.len()
        invariant
            start <= i <= s@.len(),
            all_digits(s@.subrange(start as int, s@.len() as int)),
            acc as int == digits_value(s@.subrange(start as int, i as int)),
            acc <= 9223372036854775808u128,
        decreases s@.len() - i,
    {
        assert(s@.subrange(start as int, s@.len() as int)[i - start] == s@[i as int]);
        let d: u128 = (s[i] - ZERO) as u128;
        proof {
            assert(s@.subrange(start as int, i + 1) =~= s@.subrange(start as int, i as int).push(
                s@[i as int],
            ));
            lemma_digits_value_push(s@.subrange(start as int, i as int), s@[i as int]);
        }
        acc = acc * 10 + d;
        i += 1;
        if acc > 9223372036854775808u128 {
            proof {
                let rest = s@.subrange(start as int, s@.len() as int);
                assert(rest.subrange(0, i - start) =~= s@.subrange(start as int, i as int));
                lemma_digits_value_grows(rest, (i - start) as nat);
            }
            return None;
        }
    }
    assert(s@.subrange(start as int, i as int) =~= s@.subrange(start as int, s@.len() as int));
    Some(acc as u64)
}

/// A longer run of digits never has a smaller value than its prefix.
proof fn lemma_digits_value_grows(s: Seq<u8>, k: nat)
    requires
        k <= s.len(),
        all_digits(s),
    ensures
        digits_value(s) >= digits_value(s.subrange(0, k as int)),
    decreases s.len(),
{
    if k < s.len() {
        let t = s.drop_last();
        assert(all_digits(t));
        assert(t.subrange(0, k as int) =~= s.subrange(0, k as int));
        lemma_digits_value_grows(t, k);
        assert(is_digit(s[s.len() - 1]));
        assert(digits_value(s) == digits_value(t) * 10 + (s.last() - 48) as nat);
    } else {
        assert(s.subrange(0, k as int) =~= s);
    }
}

/// Parses an optionally signed decimal integer that fits in `i64`.
pub fn parse_int(s: &[u8]) -> (r: Option<i64>)
    ensures
        r == int_token(s@),
{
    let n = s.len();
    if n == 0 {
        return None;
    }
    let signed = s[0] == MINUS || s[0] == PLUS;
    let start: usize = if signed {
        1
    } else {
        0
    };
    if start >= n {
        assert(s@.subrange(1, s@.len() as int).len() == 0);
        return None;
    }
    let mut i: usize = start;
    while i < n
        invariant
            start <= i <= n,
            n == s@.len(),
            n > 0,
            signed == (s@[0] == MINUS || s@[0] == PLUS),
            start == (if signed { 1usize } else { 0usize }),
            forall|k: int| start <= k < i ==> is_digit(#[trigger] s@[k]),
        decreases n - i,
    {
        if s[i] < ZERO || s[i] > 57 {
            assert(!is_digit(s@[i as int]));
            assert(!is_digit(s@.subrange(start as int, n as int)[i - start]));
            assert(!all_digits(s@.subrange(start as int, n as int)));
            if !signed {
                assert(s@.subrange(0, n as int) =~= s@);
                assert(!all_digits(s@));
            }

            return None;
        }
        i += 1;
    }
    let ghost rest = s@.subrange(start as int, n as int);
    assert(all_digits(rest)) by {
        assert forall|k: int| 0 <= k < rest.len() implies is_digit(#[trigger] rest[k]) by {
            assert(rest[k] == s@[k + start]);
        }
    }
    if !signed {
        assert(rest =~= s@);
    }
    match parse_digits(s, start) {
        None => None,
        Some(m) => {
            if s[0] == MINUS {
                Some((0i128 - m as i128) as i64)
            } else if m <= 9223372036854775807u64 {
                Some(m as i64)
            } else {
                None
            }
        },
    }
}

/// Parses a re-initialization token `n&value`.
pub fn parse_reinit(s: &[u8]) -> (r: Option<(usize, i64)>)
    ensures
        r == reinit_token(s@),
{
    if s.len() > 2 && s[1] == REINIT && s[0] >= ZERO && s[0] <= 57 {
        let order: usize = (s[0] - ZERO) as usize;
        let rest = tail_of(s, 2);
        match parse_int(rest.as_slice()) {
            Some(v) => Some((order, v)),
            None => None,
        }
    } else {
        None
    }
}

/// The bytes of `s` from `start` on.
pub fn tail_of(s: &[u8], start: usize) -> (r: Vec<u8>)
    requires
        start <= s@.len(),
    ensures
        r@ == s@.subrange(start as int, s@.len() as int),
{
    let mut out: Vec<u8> = Vec::new();
    let mut i: usize = start;
    while i < s.len()
        invariant
            start <= i <= s@.len(),
            out@ == s@.subrange(start as int, i as int),
        decreases s@.len() - i,
    {
        out.push(s[i]);
        i += 1;
        assert(out@ =~= s@.subrange(start as int, i as int));
    }
    out
}


pub const SPACE: u8 = 32;

/// Decimal digits of `n`, least significant first, zero-extended to at least `k`.
pub open spec fn low_digits(n: nat, k: nat) -> Seq<u8>
    decreases n + k,
{
    if n < 10 && k <= 1 {
        seq![(48 + n) as u8]
    } else {
        seq![(48 + n % 10) as u8] + low_digits(n / 10, if k > 0 { (k - 1) as nat } else { 0 })
    }
}

pub open spec fn reversed(s: Seq<u8>) -> Seq<u8> {
    Seq::new(s.len(), |i: int| s[s.len() - 1 - i])
}

pub open spec fn abs(v: int) -> nat {
    if v < 0 {
        (-v) as nat
    } else {
        v as nat
    }
}

/// `v / 10^d` written in fixed point with `d` decimals: a minus sign for a
/// negative value, at least one integer digit, the point, `d` digits.
pub open spec fn fixed_text(v: int, d: nat) -> Seq<u8> {
    let r = reversed(low_digits(abs(v), d + 1));
    let sign = if v < 0 {
        seq![MINUS]
    } else {
        Seq::<u8>::empty()
    };
    sign + r.subrange(0, r.len() - d) + seq![DOT] + r.subrange(r.len() - d, r.len() as int)
}

pub open spec fn blanks(n: nat) -> Seq<u8> {
    Seq::new(n, |i: int| SPACE)
}

/// `t` right-justified in a field of `w` columns (never truncated).
pub open spec fn pad_left(t: Seq<u8>, w: nat) -> Seq<u8> {
    if t.len() < w {
        blanks((w - t.len()) as nat) + t
    } else {
        t
    }
}

/// Number of decimal digits of `n`.
pub open spec fn num_digits(n: nat) -> nat
    decreases n,
{
    if n < 10 {
        1
    } else {
        1 + num_digits(n / 10)
    }
}

pub open spec fn pow10(t: nat) -> nat
    decreases t,
{
    if t == 0 {
        1
    } else {
        10 * pow10((t - 1) as nat)
    }
}

proof fn lemma_num_digits_bound(n: nat, t: nat)
    requires
        t >= 1,
        n < pow10(t),
    ensures
        num_digits(n) <= t,
    decreases t,
{
    if n >= 10 {
        assert(t >= 2) by {
            if t == 1 {
                reveal_with_fuel(pow10, 2);
            }
        }
        assert(n / 10 < pow10((t - 1) as nat));
        lemma_num_digits_bound(n / 10, (t - 1) as nat);
    }
}

proof fn lemma_u64_digits(n: u64)
    ensures
        num_digits(n as nat) <= 20,
{
    assert(pow10(20) == 100000000000000000000nat) by {
        reveal_with_fuel(pow10, 21);
    }
    lemma_num_digits_bound(n as nat, 20);
}

pub(crate) proof fn lemma_low_digits_len(n: nat, k: nat)
    ensures
        low_digits(n, k).len() >= k,
        low_digits(n, k).len() >= 1,
    decreases n + k,
{
    if !(n < 10 && k <= 1) {
        lemma_low_digits_len(n / 10, if k > 0 { (k - 1) as nat } else { 0 });
    }
}

/// Appends `reversed(s)[from..to]` to `out`.
fn push_reversed(out: &mut Vec<u8>, s: &Vec<u8>, from: usize, to: usize)
    requires
        from <= to <= s@.len(),
    ensures
        final(out)@ == old(out)@ + reversed(s@).subrange(from as int, to as int),
{
    let n = s.len();
    let mut j: usize = from;
    while j < to
        invariant
            from <= j <= to <= n,
            n == s@.len(),
            out@ == old(out)@ + reversed(s@).subrange(from as int, j as int),
        decreases to - j,
    {
        out.push(s[n - 1 - j]);
        j += 1;
        assert(out@ =~= old(out)@ + reversed(s@).subrange(from as int, j as int));
    }
}

/// The decimal digits of `m`, least significant first, at least `k` of them.
fn low_digit_vec(m0: u64, k0: usize) -> (rd: Vec<u8>)
    requires
        k0 < 40,
    ensures
        rd@ == low_digits(m0 as nat, k0 as nat),
        rd@.len() <= k0 + 21,
{
    let ghost target = low_digits(m0 as nat, k0 as nat);
    let mut m: u64 = m0;
    let mut k: usize = k0;
    let mut rd: Vec<u8> = Vec::new();
    proof {
        lemma_u64_digits(m);
    }
    loop
        invariant_except_break
            rd@ + low_digits(m as nat, k as nat) == target,
            k <= k0,
            rd@.len() + k + num_digits(m as nat) <= k0 + 21,
        ensures
            rd@ == target,
            rd@.len() <= k0 + 21,
        decreases m + k,
    {
        let digit: u8 = (m % 10) as u8 + ZERO;
        rd.push(digit);
        if m < 10 && k <= 1 {
            assert(rd@ =~= target);
            break;
        }
        assert(m >= 10 ==> num_digits(m as nat) == 1 + num_digits((m / 10) as nat));
        proof {
            let next_k: nat = if k > 0 { (k - 1) as nat } else { 0 };
            assert(low_digits(m as nat, k as nat) == seq![digit] + low_digits((m / 10) as nat, next_k));
            assert(rd@ + low_digits((m / 10) as nat, next_k) =~= target);
        }
        m = m / 10;
        if k > 0 {
            k = k - 1;
        }
    }
    rd
}

/// The decimal text of an integer: a minus sign when negative, then its digits.
pub open spec fn int_text(v: int) -> Seq<u8> {
    let sign = if v < 0 {
        seq![MINUS]
    } else {
        Seq::<u8>::empty()
    };
    sign + reversed(low_digits(abs(v), 1))
}

/// Writes an integer in decimal.
pub fn format_int(value: i64) -> (r: Vec<u8>)
    ensures
        r@ == int_text(value as int),
{
    let neg = value < 0;
    let m: u64 = if neg {
        (0i128 - value as i128) as u64
    } else {
        value as u64
    };
    let rd = low_digit_vec(m, 1);
    let mut out: Vec<u8> = Vec::new();
    if neg {
        out.push(MINUS);
    }
    push_reversed(&mut out, &rd, 0, rd.len());
    assert(reversed(rd@).subrange(0, rd@.len() as int) =~= reversed(rd@));
    out
}

/// The value of a fixed-point field with `d` decimals, in units of `10^-d`:
/// surrounding blanks, an optional sign, integer digits, the point, exactly
/// `d` decimals.
pub open spec fn fixed_value(s: Seq<u8>, d: nat) -> Option<i64> {
    let t = trim_start(trim_end(s));
    let neg = t.len() > 0 && t[0] == MINUS;
    let r = if neg {
        t.subrange(1, t.len() as int)
    } else {
        t
    };
    let p = r.len() - d - 1;
    if p >= 0 && r[p] == DOT {
        let sign = if neg {
            seq![MINUS]
        } else {
            Seq::<u8>::empty()
        };
        int_token(sign + r.subrange(0, p) + r.subrange(p + 1, r.len() as int))
    } else {
        None
    }
}

/// Reads a fixed-point field with `d` decimals as an integer of `10^-d` units.
pub fn parse_fixed(s: &[u8], d: usize) -> (r: Option<i64>)
    ensures
        r == fixed_value(s@, d as nat),
{
    let t = trimmed(s);
    let neg = t.len() > 0 && t[0] == MINUS;
    let r: Vec<u8> = if neg {
        tail_of(t.as_slice(), 1)
    } else {
        t
    };
    if r.len() <= d {
        return None;
    }
    let p = r.len() - d - 1;
    if r[p] != DOT {
        return None;
    }
    let mut digits: Vec<u8> = Vec::new();
    if neg {
        digits.push(MINUS);
    }
    let ghost sign = digits@;
    crate::epoch::push_range(&mut digits, r.as_slice(), 0, p);
    crate::epoch::push_range(&mut digits, r.as_slice(), p + 1, r.len());
    parse_int(digits.as_slice())
}

/// Writes `value / 10^decimals` in fixed point, right-justified to `width`.
pub fn format_fixed(value: i64, decimals: usize, width: usize) -> (r: Vec<u8>)
    requires
        decimals < 32,
    ensures
        r@ == pad_left(fixed_text(value as int, decimals as nat), width as nat),
{
    let neg = value < 0;
    let m: u64 = if neg {
        (0i128 - value as i128) as u64
    } else {
        value as u64
    };
    let rd = low_digit_vec(m, decimals + 1);
    proof {
        lemma_low_digits_len(abs(value as int), (decimals + 1) as nat);
    }
    let len = rd.len();
    let text_len: usize = if neg {
        len + 2
    } else {
        len + 1
    };
    let mut out: Vec<u8> = Vec::new();
    let mut p: usize = text_len;
    while p < width
        invariant
            text_len <= p <= width || (p == text_len && width <= text_len),
            out@ == blanks((p - text_len) as nat),
        decreases width - p,
    {
        out.push(SPACE);
        p += 1;
        assert(out@ =~= blanks((p - text_len) as nat));
    }
    let ghost pad = out@;
    if neg {
        out.push(MINUS);
    }
    push_reversed(&mut out, &rd, 0, len - decimals);
    out.push(DOT);
    push_reversed(&mut out, &rd, len - decimals, len);
    proof {
        let t = fixed_text(value as int, decimals as nat);
        assert(t.len() == text_len);
        if text_len < width {
            assert(out@ =~= blanks((width - text_len) as nat) + t);
        } else {
            assert(pad.len() == 0);
            assert(out@ =~= t);
        }
    }
    out
}


/// `s` without its trailing blanks.
pub open spec fn trim_end(s: Seq<u8>) -> Seq<u8>
    decreases s.len(),
{
    if s.len() > 0 && s.last() == SPACE {
        trim_end(s.drop_last())
    } else {
        s
    }
}

/// `s` without its leading blanks.
pub open spec fn trim_start(s: Seq<u8>) -> Seq<u8>
    decreases s.len(),
{
    if s.len() > 0 && s[0] == SPACE {
        trim_start(s.drop_first())
    } else {
        s
    }
}

/// Drops the trailing blanks of `s[from..]`.
pub fn trimmed_end_from(s: &[u8], from: usize) -> (r: Vec<u8>)
    requires
        from <= s@.len(),
    ensures
        r@ == trim_end(s@.subrange(from as int, s@.len() as int)),
{
    let mut e: usize = s.len();
    while e > from && s[e - 1] == SPACE
        invariant
            from <= e <= s@.len(),
            trim_end(s@.subrange(from as int, e as int)) == trim_end(
                s@.subrange(from as int, s@.len() as int),
            ),
        decreases e,
    {
        assert(s@.subrange(from as int, e as int).drop_last() =~= s@.subrange(
            from as int,
            e - 1,
        ));
        e -= 1;
    }
    let mut out: Vec<u8> = Vec::new();
    let mut i: usize = from;
    while i < e
        invariant
            from <= i <= e <= s@.len(),
            out@ == s@.subrange(from as int, i as int),
        decreases e - i,
    {
        out.push(s[i]);
        i += 1;
        assert(out@ =~= s@.subrange(from as int, i as int));
    }
    out
}

/// Drops the leading and trailing blanks of `s`.
pub fn trimmed(s: &[u8]) -> (r: Vec<u8>)
    ensures
        r@ == trim_start(trim_end(s@)),
{
    let t = trimmed_end_from(s, 0);
    assert(s@.subrange(0, s@.len() as int) =~= s@);
    let mut b: usize = 0;
    assert(t@.subrange(0, t@.len() as int) =~= t@);
    while b < t.len() && t[b] == SPACE
        invariant
            b <= t@.len(),
            trim_start(t@.subrange(b as int, t@.len() as int)) == trim_start(t@),
        decreases t@.len() - b,
    {
        assert(t@.subrange(b as int, t@.len() as int).drop_first() =~= t@.subrange(
            b + 1,
            t@.len() as int,
        ));
        b += 1;
    }
    tail_of(t.as_slice(), b)
}

} // verus!
