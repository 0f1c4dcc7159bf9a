//! Epoch descriptions: fixed-offset fields of a recovered description and
//! the RINEX epoch line(s) it is published as.
use vstd::prelude::*;

use crate::fields::{
    all_digits, blanks, digits_value, fixed_text, format_fixed, is_digit, lemma_digits_value_push,
    pad_left, SPACE, ZERO,
};

verus! {

pub const NEWLINE: u8 = 10;

/// Leading character of a published RINEX 3 epoch line.
pub const V3_EPOCH_MARK: u8 = 62;

/// Column of the satellite count in a description (a flag digit precedes it).
pub open spec fn count_offset(v3: bool) -> nat {
    if v3 {
        31
    } else {
        28
    }
}

/// Column of the first satellite identifier in a description.
pub open spec fn sat_offset(v3: bool) -> nat {
    if v3 {
        40
    } else {
        31
    }
}

pub fn count_column(v3: bool) -> (r: usize)
    ensures
        r == count_offset(v3),
{
    if v3 {
        31
    } else {
        28
    }
}

pub fn sat_column(v3: bool) -> (r: usize)
    ensures
        r == sat_offset(v3),
{
    if v3 {
        40
    } else {
        31
    }
}

/// Columns of a description published on the first legacy epoch line.
pub const V1_FIRST_LINE: usize = 67;

/// Columns of a description published on each legacy continuation line.
pub const V1_CONTINUATION: usize = 36;

/// Indentation of a legacy continuation line.
pub const V1_INDENT: usize = 32;

/// Width of a legacy epoch line before its clock offset.
pub const V1_CLOCK_COLUMN: usize = 68;

/// The event flag of a description: the digit just before the satellite count.
pub open spec fn flag_of(desc: Seq<u8>, v3: bool) -> Option<u8> {
    let i = count_offset(v3) - 1;
    if i < desc.len() && is_digit(desc[i]) {
        Some((desc[i] - 48) as u8)
    } else {
        None
    }
}

/// `f` without its leading blanks.
pub open spec fn skip_blanks(f: Seq<u8>) -> Seq<u8>
    decreases f.len(),
{
    if f.len() > 0 && f[0] == SPACE {
        skip_blanks(f.drop_first())
    } else {
        f
    }
}

/// A right-justified integer field: blanks, then at least one digit.
pub open spec fn right_justified_value(f: Seq<u8>) -> Option<nat> {
    let t = skip_blanks(f);
    if t.len() > 0 && all_digits(t) {
        Some(digits_value(t))
    } else {
        None
    }
}

/// The satellite count of a description: three columns after the flag.
pub open spec fn count_of(desc: Seq<u8>, v3: bool) -> Option<nat> {
    let o = count_offset(v3);
    if o + 3 <= desc.len() {
        right_justified_value(desc.subrange(o as int, (o + 3) as int))
    } else {
        None
    }
}

/// Reads the event flag of a description.
pub fn epoch_flag(desc: &[u8], v3: bool) -> (r: Option<u8>)
    ensures
        r == flag_of(desc@, v3),
{
    let i = count_column(v3) - 1;
    if i < desc.len() && desc[i] >= ZERO && desc[i] <= 57 {
        Some(desc[i] - ZERO)
    } else {
        None
    }
}

proof fn lemma_skip_blanks_from(f: Seq<u8>, i: int)
    requires
        0 <= i <= f.len(),
        forall|k: int| 0 <= k < i ==> f[k] == SPACE,
    ensures
        skip_blanks(f) == skip_blanks(f.subrange(i, f.len() as int)),
    decreases i,
{
    if i > 0 {
        assert(f.drop_first().subrange(i - 1, f.len() - 1) =~= f.subrange(i, f.len() as int));
        lemma_skip_blanks_from(f.drop_first(), i - 1);
    } else {
        assert(f.subrange(0, f.len() as int) =~= f);
    }
}

/// Reads the satellite count of a description.
pub fn epoch_count(desc: &[u8], v3: bool) -> (r: Option<usize>)
    ensures
        match r {
            Some(n) => count_of(desc@, v3) == Some(n as nat) && n < 1000,
            None => count_of(desc@, v3).is_none(),
        },
{
    let o = count_column(v3);
    if o + 3 > desc.len() {
        return None;
    }
    let ghost f = desc@.subrange(o as int, o + 3);
    let mut i: usize = o;
    while i < o + 3 && desc[i] == SPACE
        invariant
            o <= i <= o + 3,
            o == count_offset(v3),
            o + 3 <= desc@.len(),
            f == desc@.subrange(o as int, o + 3),
            forall|k: int| 0 <= k < i - o ==> f[k] == SPACE,
        decreases o + 3 - i,
    {
        i += 1;
    }
    proof {
        lemma_skip_blanks_from(f, i - o);
    }
    let ghost t = f.subrange(i - o, 3);
    assert(t.len() == 0 || t[0] != SPACE);
    assert(skip_blanks(t) == t);
    if i == o + 3 {
        return None;
    }
    let start = i;
    let mut acc: usize = 0;
    while i < o + 3
        invariant
            o <= start <= i <= o + 3,
            o == count_offset(v3),
            o + 3 <= desc@.len(),
            skip_blanks(f) == t,
            t.len() > 0,
            f == desc@.subrange(o as int, o + 3),
            t == f.subrange(start - o, 3),
            acc as int == digits_value(f.subrange(start - o, i - o)),
            acc < 1000,
            forall|k: int| start - o <= k < i - o ==> is_digit(#[trigger] f[k]),
        decreases o + 3 - i,
    {
        let c = desc[i];
        if c < ZERO || c > 57 {
            assert(!is_digit(t[i - start]));
            assert(!all_digits(t));
            return None;
        }
        proof {
            assert(f.subrange(start - o, i + 1 - o) =~= f.subrange(start - o, i - o).push(f[i - o]));
            lemma_digits_value_push(f.subrange(start - o, i - o), f[i - o]);
            lemma_digits_run_small(f, start - o, i - o);
        }
        acc = acc * 10 + (c - ZERO) as usize;
        i += 1;
    }
    assert(f.subrange(start - o, 3) =~= t);
    assert(all_digits(t)) by {
        assert forall|k: int| 0 <= k < t.len() implies is_digit(#[trigger] t[k]) by {
            assert(t[k] == f[k + start - o]);
        }
    }
    Some(acc)
}

proof fn lemma_digits_run_small(f: Seq<u8>, a: int, b: int)
    requires
        0 <= a <= b <= f.len(),
        b - a <= 2,
        forall|k: int| a <= k < b ==> is_digit(#[trigger] f[k]),
    ensures
        digits_value(f.subrange(a, b)) < 100,
{
    let s = f.subrange(a, b);
    assert forall|k: int| 0 <= k < s.len() implies is_digit(#[trigger] s[k]) by {
        assert(s[k] == f[a + k]);
    }
    lemma_digits_small(s);
}

/// At most two digits are worth less than a hundred.
proof fn lemma_digits_small(s: Seq<u8>)
    requires
        s.len() <= 2,
        all_digits(s),
    ensures
        digits_value(s) < 100,
        s.len() <= 1 ==> digits_value(s) < 10,
    decreases s.len(),
{
    if s.len() > 0 {
        assert(is_digit(s[s.len() - 1]));
        assert(all_digits(s.drop_last()));
        lemma_digits_small(s.drop_last());
    }
}

pub open spec fn min_nat(a: nat, b: nat) -> nat {
    if a < b {
        a
    } else {
        b
    }
}

/// `t` extended with blanks to `w` columns.
pub open spec fn pad_right(t: Seq<u8>, w: nat) -> Seq<u8> {
    if t.len() < w {
        t + blanks((w - t.len()) as nat)
    } else {
        t
    }
}

/// Legacy continuation lines holding the description from column `from` on,
/// 36 columns each after a 32-column indentation.
pub open spec fn v1_continuations(desc: Seq<u8>, from: nat) -> Seq<u8>
    decreases desc.len() - from,
{
    if from >= desc.len() {
        Seq::empty()
    } else {
        let end = min_nat(from + 36, desc.len());
        blanks(32) + desc.subrange(from as int, end as int) + seq![NEWLINE] + v1_continuations(
            desc,
            end,
        )
    }
}

/// The legacy epoch line(s): a blank, the description up to its twelfth
/// satellite, the clock offset (seconds, nine decimals) from column 69 when
/// there is one, then the continuation lines.
pub open spec fn v1_epoch_text(desc: Seq<u8>, clock: Option<i64>) -> Seq<u8> {
    let first = seq![SPACE] + desc.subrange(0, min_nat(desc.len(), 67) as int);
    let line = match clock {
        Some(c) => pad_right(first, 68) + pad_left(fixed_text(c as int, 9), 12),
        None => first,
    };
    line + seq![NEWLINE] + v1_continuations(desc, 67)
}

/// The modern epoch line: the marker, date, flag and count, then the clock
/// offset (seconds, twelve decimals) in columns 42 to 56 when there is one.
pub open spec fn v3_epoch_text(desc: Seq<u8>, clock: Option<i64>) -> Seq<u8> {
    let head = seq![V3_EPOCH_MARK] + desc.subrange(0, 34);
    let line = match clock {
        Some(c) => head + blanks(6) + pad_left(fixed_text(c as int, 12), 15),
        None => head,
    };
    line + seq![NEWLINE]
}

pub open spec fn epoch_text(desc: Seq<u8>, v3: bool, clock: Option<i64>) -> Seq<u8> {
    if v3 {
        v3_epoch_text(desc, clock)
    } else {
        v1_epoch_text(desc, clock)
    }
}

/// Appends `s[from..to]` to `out`.
pub fn push_range(out: &mut Vec<u8>, s: &[u8], from: usize, to: usize)
    requires
        from <= to <= s@.len(),
    ensures
        final(out)@ == old(out)@ + s@.subrange(from as int, to as int),
{
    let mut j: usize = from;
    while j < to
        invariant
            from <= j <= to <= s@.len(),
            out@ == old(out)@ + s@.subrange(from as int, j as int),
        decreases to - j,
    {
        out.push(s[j]);
        j += 1;
        assert(out@ =~= old(out)@ + s@.subrange(from as int, j as int));
    }
}

/// Appends `n` blanks to `out`.
pub fn push_blanks(out: &mut Vec<u8>, n: usize)
    ensures
        final(out)@ == old(out)@ + blanks(n as nat),
{
    let mut j: usize = 0;
    while j < n
        invariant
            j <= n,
            out@ == old(out)@ + blanks(j as nat),
        decreases n - j,
    {
        out.push(SPACE);
        j += 1;
        assert(out@ =~= old(out)@ + blanks(j as nat));
    }
}

/// Appends the bytes of `v` to `out`.
pub fn push_all(out: &mut Vec<u8>, v: &Vec<u8>)
    ensures
        final(out)@ == old(out)@ + v@,
{
    push_range(out, v.as_slice(), 0, v.len());
    assert(v@.subrange(0, v@.len() as int) =~= v@);
}

/// Publishes a description as RINEX epoch line(s), each ending in a newline.
pub fn format_epoch(desc: &[u8], v3: bool, clock: Option<i64>) -> (r: Vec<u8>)
    requires
        v3 ==> desc@.len() >= 34,
    ensures
        r@ == epoch_text(desc@, v3, clock),
{
    let mut out: Vec<u8> = Vec::new();
    if v3 {
        out.push(V3_EPOCH_MARK);
        push_range(&mut out, desc, 0, 34);
        if let Some(c) = clock {
            push_blanks(&mut out, 6);
            let t = format_fixed(c, 12, 15);
            push_all(&mut out, &t);
        }
        out.push(NEWLINE);
        return out;
    }
    let n = desc.len();
    let first_end: usize = if n < V1_FIRST_LINE {
        n
    } else {
        V1_FIRST_LINE
    };
    out.push(SPACE);
    push_range(&mut out, desc, 0, first_end);
    if let Some(c) = clock {
        let w = out.len();
        if w < V1_CLOCK_COLUMN {
            push_blanks(&mut out, V1_CLOCK_COLUMN - w);
        }
        let t = format_fixed(c, 9, 12);
        push_all(&mut out, &t);
    }
    out.push(NEWLINE);
    let mut from: usize = V1_FIRST_LINE;
    while from < n
        invariant
            V1_FIRST_LINE <= from,
            n == desc@.len(),
            out@ + v1_continuations(desc@, from as nat) == epoch_text(desc@, v3, clock),
        decreases n - from,
    {
        let end: usize = if n - from > V1_CONTINUATION {
            from + V1_CONTINUATION
        } else {
            n
        };
        push_blanks(&mut out, V1_INDENT);
        push_range(&mut out, desc, from, end);
        out.push(NEWLINE);
        from = end;
    }
    out
}

} // verus!
