//! The encode direction: RINEX observation records into compact records.
use vstd::prelude::*;

use crate::decoder::{
    lemma_kept_next, comment_line, field_next, field_outcome, is_comment, joined, kept_count, kept_next, kept_kernel, kept_outcome, lemma_kept_outcome,
    system_of, text_of, verbatim,
};
use crate::epoch::{count_of, epoch_count, epoch_flag, flag_of, push_all, push_blanks, push_range, NEWLINE};
use crate::error::CodecError;
use crate::fields::{
    abs, all_digits, blanks, digits_value, fixed_value, format_int, int_text, int_text_value,
    int_token, is_digit, low_digits, parse_fixed, reinit_token, reversed, trim_end, trim_start,
    trimmed, trimmed_end_from, MINUS, REINIT, SPACE, ZERO,
};
use crate::header::{code_count, codes_for, HeaderInfo, SystemCodes};
use crate::numdiff::{
    all_fit, difference, differenced_levels, law_numeric_round_trip, recovered_levels, NumKernel,
};
use crate::registry::{sat_key, satellite_key, Registry, SatelliteKernels};
use crate::textdiff::{overlay, text_diff, TextKernel};

verus! {

/// A re-initialization token: the order digit, the marker, the seed.
pub open spec fn reinit_text(order: usize, v: i64) -> Seq<u8> {
    seq![(48 + order) as u8, REINIT] + int_text(v as int)
}

/// The token that carries `value` for a field whose kernel is `k`: blank for
/// a missing value, the difference when the kernel is seeded and the
/// difference fits, a re-initialization at `order` otherwise.
pub open spec fn value_token_for(k: NumKernel, value: Option<i64>, order: usize) -> Seq<u8> {
    match value {
        None => Seq::empty(),
        Some(v) => {
            let z = differenced_levels(k.history(), v as int, k.top() as int);
            if k.is_seeded() && all_fit(z) {
                int_text(z[k.top() as int])
            } else {
                reinit_text(order, v)
            }
        },
    }
}

proof fn lemma_low_digits_text(n: nat, k: nat)
    ensures
        all_digits(reversed(low_digits(n, k))),
        digits_value(reversed(low_digits(n, k))) == n,
    decreases n + k,
{
    let l = low_digits(n, k);
    if n < 10 && k <= 1 {
        assert(reversed(l) =~= seq![(48 + n) as u8]);
        assert(reversed(l).drop_last() =~= Seq::<u8>::empty());
        assert(reversed(l).last() == (48 + n) as u8);
        assert(digits_value(reversed(l)) == digits_value(Seq::<u8>::empty()) * 10 + n);
    } else {
        let nk: nat = if k > 0 { (k - 1) as nat } else { 0 };
        lemma_low_digits_text(n / 10, nk);
        let rest = low_digits(n / 10, nk);
        let c = (48 + n % 10) as u8;
        assert(l == seq![c] + rest);
        assert(reversed(l) =~= reversed(rest).push(c));
        assert(reversed(l).drop_last() =~= reversed(rest));
        assert(reversed(l).last() == c);
        assert(n == (n / 10) * 10 + n % 10);
        assert(digits_value(reversed(l)) == digits_value(reversed(rest)) * 10 + (c - 48) as nat);
        assert forall|i: int| 0 <= i < reversed(l).len() implies is_digit(#[trigger] reversed(l)[i]) by {
            if i < reversed(rest).len() {
                assert(reversed(l)[i] == reversed(rest)[i]);
            }
        }
    }
}

/// Reading back the decimal text of an integer gives the integer.
pub proof fn law_int_text_round_trip(v: i64)
    ensures
        int_token(int_text(v as int)) == Some(v),
        int_text(v as int).len() >= 1,
        forall|i: int| 0 <= i < int_text(v as int).len() ==> #[trigger] int_text(v as int)[i] == MINUS || is_digit(int_text(v as int)[i]),
{
    let r = reversed(low_digits(abs(v as int), 1));
    lemma_low_digits_text(abs(v as int), 1);
    crate::fields::lemma_low_digits_len(abs(v as int), 1);
    let t = int_text(v as int);
    if v < 0 {
        assert(t =~= seq![MINUS] + r);
        assert(t.subrange(1, t.len() as int) =~= r);
    } else {
        assert(t =~= r);
        assert(is_digit(r[0]));
    }
    assert forall|i: int| 0 <= i < t.len() implies #[trigger] t[i] == MINUS || is_digit(t[i]) by {
        if v < 0 && i > 0 {
            assert(t[i] == r[i - 1]);
        }
    }
}

/// Emits the token for one field and updates its kernel as a decoder of
/// that token does: decoding the token against the kernel as it was
/// recovers `value`.
pub fn encode_value(k: &mut NumKernel, value: Option<i64>, order: usize) -> (r: Vec<u8>)
    requires
        old(k).wf(),
        order <= old(k).max_order,
        order <= 9,
    ensures
        final(k).wf(),
        final(k).max_order == old(k).max_order,
        r@ == value_token_for(*old(k), value, order),
        field_outcome(*old(k), r@) == Ok::<Option<i64>, CodecError>(value),
        value is None ==> *final(k) == *old(k),
        value is Some ==> final(k).history()[0] == value->0 as int,
        field_next(*old(k), r@, *final(k)),
        value is Some && reinit_token(r@) is Some ==> final(k).order == order && final(k).history()
            == seq![value->0 as int],
        value is Some && reinit_token(r@) is None ==> final(k).order == old(k).order
            && final(k).history() == recovered_levels(
            old(k).history(),
            int_token(r@)->0 as int,
            old(k).top() as int,
        ),
{
    match value {
        None => Vec::new(),
        Some(v) => {
            let ghost k0 = *k;
            if k.levels.len() > 0 {
                match k.encode(v) {
                    Ok(t) => {
                        let out = format_int(t);
                        proof {
                            law_value_token_round_trip(k0, value, order);
                            law_numeric_round_trip(k0.history(), v as int, k0.top() as int);
                            assert(k0.history().len() == k0.levels@.len());
                        }
                        return out;
                    },
                    Err(_) => {},
                }
            }
            let init = k.initialize(order, v);
            assert(init is Ok);
            let mut out: Vec<u8> = Vec::new();
            out.push(ZERO + order as u8);
            out.push(REINIT);
            let digits = format_int(v);
            push_all(&mut out, &digits);
            proof {
                law_value_token_round_trip(k0, value, order);
                assert(out@ =~= reinit_text(order, v));
            }
            out
        },
    }
}

/// Value tokens separated by single blanks.
pub open spec fn join_tokens(toks: Seq<Seq<u8>>) -> Seq<u8>
    decreases toks.len(),
{
    if toks.len() == 0 {
        Seq::empty()
    } else if toks.len() == 1 {
        toks[0]
    } else {
        join_tokens(toks.drop_last()) + seq![SPACE] + toks.last()
    }
}

/// A compact observation line: the value tokens, a blank, the differenced
/// flag columns, without trailing blanks.
pub open spec fn compact_obs_line(toks: Seq<Seq<u8>>, flags_token: Seq<u8>) -> Seq<u8> {
    if toks.len() == 0 {
        trim_end(flags_token)
    } else {
        trim_end(join_tokens(toks) + seq![SPACE] + flags_token)
    }
}

/// The value tokens of a satellite's fields against its kernels.
pub open spec fn obs_tokens(kernels: Seq<NumKernel>, values: Seq<Option<i64>>, order: usize) -> Seq<Seq<u8>> {
    Seq::new(values.len(), |i: int| value_token_for(kernels[i], values[i], order))
}

/// Compresses one satellite's fields and flag columns, updating its kernels.
pub fn encode_obs(
    entry: &mut SatelliteKernels,
    values: &Vec<Option<i64>>,
    flags: &[u8],
    order: usize,
    max_order: usize,
) -> (r: Vec<u8>)
    requires
        old(entry).wf(max_order),
        old(entry).values@.len() >= values@.len(),
        order <= max_order,
        max_order < usize::MAX,
        order <= 9,
    ensures
        final(entry).wf(max_order),
        final(entry).key == old(entry).key,
        final(entry).values@.len() == old(entry).values@.len(),
        r@ == compact_obs_line(
            obs_tokens(old(entry).values@, values@, order),
            text_diff(old(entry).flags.line@, flags@),
        ),
        forall|i: int|
            0 <= i < values@.len() ==> field_next(
                old(entry).values@[i],
                obs_tokens(old(entry).values@, values@, order)[i],
                #[trigger] final(entry).values@[i],
            ),
        forall|i: int|
            values@.len() <= i < old(entry).values@.len() ==> #[trigger] final(entry).values@[i]
                == old(entry).values@[i],
        final(entry).flags.line@ == overlay(
            old(entry).flags.line@,
            text_diff(old(entry).flags.line@, flags@),
        ),
        forall|i: int|
            0 <= i < values@.len() ==> field_outcome(
                old(entry).values@[i],
                #[trigger] obs_tokens(old(entry).values@, values@, order)[i],
            ) == Ok::<Option<i64>, CodecError>(values@[i]),
{
    let n = values.len();
    let ghost k0 = old(entry).values@;
    let ghost toks = obs_tokens(k0, values@, order);
    let mut line: Vec<u8> = Vec::new();
    let mut i: usize = 0;
    while i < n
        invariant
            i <= n,
            n == values@.len(),
            entry.wf(max_order),
            entry.key == old(entry).key,
            entry.flags == old(entry).flags,
            entry.values@.len() == k0.len(),
            k0.len() >= n,
            order <= max_order,
            max_order < usize::MAX,
            order <= 9,
            toks == obs_tokens(k0, values@, order),
            forall|j: int| i <= j < k0.len() ==> #[trigger] entry.values@[j] == k0[j],
            forall|j: int| 0 <= j < i ==> field_next(k0[j], toks[j], #[trigger] entry.values@[j]),
            line@ == join_tokens(toks.subrange(0, i as int)),
            forall|j: int|
                0 <= j < i ==> field_outcome(k0[j], #[trigger] toks[j]) == Ok::<
                    Option<i64>,
                    CodecError,
                >(values@[j]),
        decreases n - i,
    {
        let mut k = NumKernel::new(max_order);
        entry.values.set_and_swap(i, &mut k);
        let t = encode_value(&mut k, values[i], order);
        entry.values.set(i, k);
        if i > 0 {
            line.push(SPACE);
        }
        push_all(&mut line, &t);
        proof {
            let s = toks.subrange(0, i + 1);
            assert(s.drop_last() =~= toks.subrange(0, i as int));
            assert(s.last() == t@);
            if i == 0 {
                assert(line@ =~= join_tokens(s));
            }
        }
        i += 1;
    }
    assert(toks.subrange(0, n as int) =~= toks);
    let ghost joined = line@;
    let ft = entry.flags.encode(flags);
    if n > 0 {
        line.push(SPACE);
    }
    push_all(&mut line, &ft);
    assert(n > 0 ==> line@ =~= join_tokens(toks) + seq![SPACE] + ft@);
    assert(toks.len() == n);
    let out = trimmed_end_from(line.as_slice(), 0);
    assert(line@.subrange(0, line@.len() as int) =~= line@);
    if n == 0 {
        assert(line@ =~= ft@);
    }
    out
}

/// Columns `a` to `a + w` of a line, as far as the line goes.
pub open spec fn columns(line: Seq<u8>, a: int, w: int) -> Seq<u8> {
    if a >= line.len() {
        Seq::empty()
    } else if a + w <= line.len() {
        line.subrange(a, a + w)
    } else {
        line.subrange(a, line.len() as int)
    }
}

pub fn column_slice(line: &[u8], a: usize, w: usize) -> (r: Vec<u8>)
    ensures
        r@ == columns(line@, a as int, w as int),
{
    let mut out: Vec<u8> = Vec::new();
    if a >= line.len() {
        return out;
    }
    let b = if line.len() - a >= w {
        a + w
    } else {
        line.len()
    };
    push_range(&mut out, line, a, b);
    out
}

/// A RINEX fixed-point column of `w` characters with `d` decimals: absent
/// when blank, refused when it is not a number.
pub open spec fn rinex_value(line: Seq<u8>, a: int, w: int, d: nat) -> Result<Option<i64>, CodecError> {
    let f = columns(line, a, w);
    if trim_start(trim_end(f)).len() == 0 {
        Ok(None)
    } else {
        match fixed_value(f, d) {
            Some(v) => Ok(Some(v)),
            None => Err(CodecError::MalformedRecord),
        }
    }
}

pub fn read_value(line: &[u8], a: usize, w: usize, d: usize) -> (r: Result<Option<i64>, CodecError>)
    ensures
        r == rinex_value(line@, a as int, w as int, d as nat),
{
    let f = column_slice(line, a, w);
    let t = trimmed(f.as_slice());
    if t.len() == 0 {
        return Ok(None);
    }
    match parse_fixed(f.as_slice(), d) {
        Some(v) => Ok(Some(v)),
        None => Err(CodecError::MalformedRecord),
    }
}

/// The character in column `j`, blank past the end of the line.
pub open spec fn column_char(line: Seq<u8>, j: int) -> u8 {
    if 0 <= j < line.len() {
        line[j]
    } else {
        SPACE
    }
}

pub fn char_at(line: &[u8], j: usize) -> (r: u8)
    ensures
        r == column_char(line@, j as int),
{
    if j < line.len() {
        line[j]
    } else {
        SPACE
    }
}

/// Whether the `k` fields from column `start` (sixteen columns apart) are
/// blank or numbers.
pub open spec fn read_ok(line: Seq<u8>, start: int, k: nat) -> bool {
    forall|j: int| 0 <= j < k ==> (#[trigger] rinex_value(line, start + 16 * j, 14, 3)) is Ok
}

/// The values of the `k` fields from column `start`.
pub open spec fn read_values(line: Seq<u8>, start: int, k: nat) -> Seq<Option<i64>> {
    Seq::new(k, |j: int| rinex_value(line, start + 16 * j, 14, 3)->Ok_0)
}

/// The loss-of-lock and signal-strength columns after field `j`; blank for
/// an absent value.
pub open spec fn flag_pair(line: Seq<u8>, start: int, j: int) -> Seq<u8> {
    flag_pair_at(line, start + 16 * j)
}

/// The two flag columns after the field at column `p`.
pub open spec fn flag_pair_at(line: Seq<u8>, p: int) -> Seq<u8> {
    let v = rinex_value(line, p, 14, 3);
    if v is Ok && v->Ok_0 is Some {
        seq![column_char(line, p + 14), column_char(line, p + 15)]
    } else {
        seq![SPACE, SPACE]
    }
}

/// Past the end of a line every field is absent.
proof fn lemma_past_end(line: Seq<u8>, p: int, q: int)
    requires
        p >= line.len(),
        q >= line.len(),
    ensures
        rinex_value(line, p, 14, 3) == Ok::<Option<i64>, CodecError>(None),
        rinex_value(line, p, 14, 3) == rinex_value(line, q, 14, 3),
        flag_pair_at(line, p) == flag_pair_at(line, q),
{
    assert(trim_end(Seq::<u8>::empty()) == Seq::<u8>::empty());
    assert(trim_start(Seq::<u8>::empty()) == Seq::<u8>::empty());
}

/// Reads the field at column `a` with its two flag columns.
fn read_field(line: &[u8], a: usize) -> (r: Result<(Option<i64>, u8, u8), CodecError>)
    ensures
        match r {
            Ok((v, lli, ssi)) => rinex_value(line@, a as int, 14, 3) == Ok::<Option<i64>, CodecError>(v)
                && flag_pair_at(line@, a as int) == seq![lli, ssi],
            Err(e) => e == CodecError::MalformedRecord && rinex_value(line@, a as int, 14, 3) is Err,
        },
{
    if a >= line.len() {
        proof {
            lemma_past_end(line@, a as int, a as int);
        }
        return Ok((None, SPACE, SPACE));
    }
    let v = match read_value(line, a, 14, 3) {
        Ok(v) => v,
        Err(e) => {
            return Err(e);
        },
    };
    let lli = if v.is_some() && line.len() - a > 14 {
        line[a + 14]
    } else {
        SPACE
    };
    let ssi = if v.is_some() && line.len() - a > 15 {
        line[a + 15]
    } else {
        SPACE
    };
    Ok((v, lli, ssi))
}

/// The flag columns of the `k` fields from column `start`.
pub open spec fn read_flags(line: Seq<u8>, start: int, k: nat) -> Seq<u8>
    decreases k,
{
    if k == 0 {
        Seq::empty()
    } else {
        read_flags(line, start, (k - 1) as nat) + flag_pair(line, start, k - 1)
    }
}

/// The description columns of a RINEX epoch line.
pub open spec fn epoch_head(line: Seq<u8>, v3: bool) -> Seq<u8> {
    if v3 {
        columns(line, 1, 34)
    } else {
        trim_end(columns(line, 1, 67))
    }
}

/// The clock offset of a RINEX epoch line.
pub open spec fn epoch_clock(line: Seq<u8>, v3: bool) -> Result<Option<i64>, CodecError> {
    if v3 {
        rinex_value(line, 41, 15, 12)
    } else {
        rinex_value(line, 68, 12, 9)
    }
}

/// The compact lines of a complete epoch: epoch line, clock line, and the
/// observation lines gathered so far.
pub open spec fn published(pre: Encoder, desc: Seq<u8>, clock: Option<i64>, body: Seq<u8>) -> Seq<u8> {
    compact_epoch_text(pre.epoch, pre.modern_marker, trim_end(desc)) + value_token_for(
        pre.clock,
        clock,
        pre.order,
    ) + seq![NEWLINE] + body
}

/// The session's layout and order are the same after a step.
pub open spec fn enc_layout(pre: Encoder, post: Encoder) -> bool {
    &&& post.modern_marker == pre.modern_marker
    &&& post.v3 == pre.v3
    &&& post.system == pre.system
    &&& post.codes@ == pre.codes@
    &&& post.order == pre.order
}

/// The description kernel after the compact epoch line of `desc`.
pub open spec fn epoch_kernel_after(pre: Option<TextKernel>, desc: Seq<u8>, post: Option<TextKernel>) -> bool {
    &&& post is Some
    &&& match pre {
        None => post->0.line@ == desc,
        Some(k) => post->0.line@ == overlay(k.line@, text_diff(k.line@, desc)),
    }
}

/// The description and clock kernels after an epoch with description `desc`
/// and clock offset `c` is published.
pub open spec fn kernels_published(pre: Encoder, post: Encoder, desc: Seq<u8>, c: Option<i64>) -> bool {
    &&& epoch_kernel_after(pre.epoch, trim_end(desc), post.epoch)
    &&& field_next(pre.clock, value_token_for(pre.clock, c, pre.order), post.clock)
}

/// A legacy satellite list `desc` is complete: the epoch is published.
pub open spec fn legacy_publish(pre: Encoder, post: Encoder, desc: Seq<u8>, r: Result<Seq<u8>, CodecError>) -> bool {
    if desc.len() < 31 + 3 * pre.numsat {
        r == Err::<Seq<u8>, CodecError>(CodecError::MalformedEpochHeader)
    } else {
        &&& r == Ok::<Seq<u8>, CodecError>(published(pre, desc, pre.clock_value, pre.body@))
        &&& post.phase == (if pre.numsat > 0 { EncPhase::Observation } else { EncPhase::Epoch })
        &&& post.sat_index == 0
        &&& post.desc@ == desc
        &&& post.numsat == pre.numsat
        &&& post.clock_value == pre.clock_value
        &&& post.values == pre.values
        &&& post.flags == pre.flags
        &&& enc_layout(pre, post)
        &&& kernels_published(pre, post, desc, pre.clock_value)
        &&& post.registry == pre.registry
        &&& post.body@.len() == 0
    }
}

/// A RINEX epoch line: an event is published at once and announces its
/// special records; otherwise the description and clock offset are kept
/// until the satellite list is complete.
pub open spec fn enc_epoch_step(pre: Encoder, post: Encoder, line: Seq<u8>, r: Result<Seq<u8>, CodecError>) -> bool {
    let v3 = pre.v3;
    let head = epoch_head(line, v3);
    let flag = flag_of(head, v3);
    let n = count_of(head, v3);
    if v3 && (line.len() < 35 || line[0] != 62u8) {
        r == Err::<Seq<u8>, CodecError>(CodecError::MalformedEpochHeader)
    } else if flag is None || n is None {
        r == Err::<Seq<u8>, CodecError>(CodecError::MalformedEpochHeader)
    } else if flag->0 > 1 {
        &&& r == Ok::<Seq<u8>, CodecError>(compact_epoch_text(pre.epoch, pre.modern_marker, trim_end(head)))
        &&& post.pending == n->0
        &&& post.phase == (if n->0 > 0 { EncPhase::Event } else { EncPhase::Epoch })
        &&& post.clock == pre.clock
        &&& post.registry == pre.registry
        &&& enc_layout(pre, post)
        &&& epoch_kernel_after(pre.epoch, trim_end(head), post.epoch)
        &&& post.desc == pre.desc
        &&& post.clock_value == pre.clock_value
        &&& post.numsat == pre.numsat
        &&& post.sat_index == pre.sat_index
        &&& post.values == pre.values
        &&& post.flags == pre.flags
        &&& post.body == pre.body
    } else {
        match epoch_clock(line, v3) {
            Err(e) => r == Err::<Seq<u8>, CodecError>(e),
            Ok(c) => if v3 && n->0 == 0 {
                &&& r == Ok::<Seq<u8>, CodecError>(published(pre, head + blanks(6), c, Seq::empty()))
                &&& post.phase == EncPhase::Epoch
                &&& enc_layout(pre, post)
                &&& kernels_published(pre, post, head + blanks(6), c)
                &&& post.registry == pre.registry
                &&& post.desc@ == head + blanks(6)
                &&& post.clock_value == c
                &&& post.numsat == 0
                &&& post.sat_index == 0
                &&& post.pending == pre.pending
                &&& post.values@.len() == 0
                &&& post.flags@.len() == 0
                &&& post.body@.len() == 0
            } else if !v3 && n->0 <= 12 && head.len() < 31 + 3 * n->0 {
                r == Err::<Seq<u8>, CodecError>(CodecError::MalformedEpochHeader)
            } else {
                &&& post.numsat == n->0
                &&& post.clock_value == c
                &&& enc_layout(pre, post)
                &&& post.registry == pre.registry
                &&& post.flags@.len() == 0
                &&& post.values@.len() == 0
                &&& if v3 {
                    &&& r == Ok::<Seq<u8>, CodecError>(Seq::empty())
                    &&& post.phase == EncPhase::Observation
                    &&& post.desc@ == head + blanks(6)
                    &&& post.sat_index == 0
                    &&& post.body@.len() == 0
                    &&& post.epoch == pre.epoch
                    &&& post.clock == pre.clock
                    &&& post.pending == pre.pending
                } else if n->0 > 12 {
                    &&& r == Ok::<Seq<u8>, CodecError>(Seq::empty())
                    &&& post.phase == EncPhase::Continuation
                    &&& post.pending == (n->0 - 1) / 12
                    &&& post.desc@ == head
                    &&& post.body@.len() == 0
                    &&& post.epoch == pre.epoch
                    &&& post.clock == pre.clock
                    &&& post.sat_index == 0
                } else {
                    &&& r == Ok::<Seq<u8>, CodecError>(published(pre, head, c, Seq::empty()))
                    &&& post.phase == (if n->0 > 0 { EncPhase::Observation } else { EncPhase::Epoch })
                    &&& post.sat_index == 0
                    &&& post.desc@ == head
                    &&& kernels_published(pre, post, head, c)
                    &&& post.body@.len() == 0
                    &&& post.pending == pre.pending
                }
            },
        }
    }
}

/// A continuation line of a legacy satellite list.
pub open spec fn enc_continuation_step(pre: Encoder, post: Encoder, line: Seq<u8>, r: Result<Seq<u8>, CodecError>) -> bool {
    let desc = pre.desc@ + trim_end(columns(line, 32, 36));
    if pre.pending > 1 {
        &&& r == Ok::<Seq<u8>, CodecError>(Seq::empty())
        &&& post.pending == pre.pending - 1
        &&& post.desc@ == desc
        &&& post.phase == EncPhase::Continuation
        &&& post.numsat == pre.numsat
        &&& enc_layout(pre, post)
        &&& post.epoch == pre.epoch
        &&& post.clock == pre.clock
        &&& post.registry == pre.registry
        &&& post.clock_value == pre.clock_value
        &&& post.sat_index == pre.sat_index
        &&& post.values == pre.values
        &&& post.flags == pre.flags
        &&& post.body == pre.body
    } else {
        &&& legacy_publish(pre, post, desc, r)
        &&& r is Ok ==> post.pending == 0
    }
}

/// The satellite an observation line belongs to.
pub open spec fn enc_sat(pre: Encoder, line: Seq<u8>) -> Seq<u8> {
    if pre.v3 {
        columns(line, 0, 3)
    } else {
        columns(pre.desc@, 31 + 3 * pre.sat_index, 3)
    }
}

/// Column of the first field of an observation line.
pub open spec fn obs_start(v3: bool) -> int {
    if v3 {
        3
    } else {
        0
    }
}

/// How many fields an observation line carries for a satellite with `n`
/// codes of which `have` were read already: all (modern layout) or at most
/// five (legacy layout).
pub open spec fn fields_in_line(v3: bool, n: nat, have: nat) -> nat {
    if have >= n {
        0
    } else if v3 || n - have <= 5 {
        (n - have) as nat
    } else {
        5
    }
}

/// An observation line: its fields are read; once the satellite's fields
/// are complete they are compressed, and the decoder, holding the same
/// kernels, recovers every value from the tokens. The last satellite of a
/// modern epoch publishes the whole epoch.
pub open spec fn enc_obs_step(pre: Encoder, post: Encoder, line: Seq<u8>, r: Result<Seq<u8>, CodecError>) -> bool {
    let v3 = pre.v3;
    let sat = enc_sat(pre, line);
    let start = obs_start(v3);
    if v3 && line.len() < 3 {
        r == Err::<Seq<u8>, CodecError>(CodecError::MalformedRecord)
    } else {
        match code_count(pre.codes@, system_of(sat, pre.system)) {
            None => r == Err::<Seq<u8>, CodecError>(CodecError::UnknownConstellation),
            Some(n) => {
                let k = fields_in_line(v3, n as nat, pre.values@.len());
                let vals = pre.values@ + read_values(line, start, k);
                let fl = pre.flags@ + read_flags(line, start, k);
                if !read_ok(line, start, k) {
                    r == Err::<Seq<u8>, CodecError>(CodecError::MalformedRecord)
                } else if vals.len() < n {
                    &&& r == Ok::<Seq<u8>, CodecError>(Seq::empty())
                    &&& post.values@ == vals
                    &&& post.flags@ == fl
                    &&& post.phase == pre.phase
                    &&& post.sat_index == pre.sat_index
                    &&& post.registry == pre.registry
                    &&& enc_layout(pre, post)
                    &&& post.epoch == pre.epoch
                    &&& post.clock == pre.clock
                    &&& post.desc == pre.desc
                    &&& post.numsat == pre.numsat
                    &&& post.clock_value == pre.clock_value
                    &&& post.body == pre.body
                    &&& post.pending == pre.pending
                } else {
                    &&& r is Ok
                    &&& post.sat_index == pre.sat_index + 1
                    &&& post.phase == (if pre.sat_index + 1 == pre.numsat { EncPhase::Epoch } else { EncPhase::Observation })
                    &&& post.values@.len() == 0
                    &&& post.flags@.len() == 0
                    &&& enc_layout(pre, post)
                    &&& post.numsat == pre.numsat
                    &&& post.clock_value == pre.clock_value
                    &&& post.pending == pre.pending
                    &&& registry_after_enc(pre.registry, post.registry, sat_key(sat), vals, fl, pre.order)
                    &&& forall|i: int|
                        0 <= i < vals.len() ==> kept_outcome(
                            pre.registry,
                            sat_key(sat),
                            i,
                            #[trigger] kept_tokens(pre.registry, sat_key(sat), vals, pre.order)[i],
                        ) == Ok::<Option<i64>, CodecError>(vals[i])
                    &&& {
                        let text = compact_obs_line(
                            kept_tokens(pre.registry, sat_key(sat), vals, pre.order),
                            text_diff(pre.registry.flags_of(sat_key(sat)), fl),
                        ) + seq![NEWLINE];
                        if !v3 {
                            &&& r->Ok_0 == text
                            &&& post.epoch == pre.epoch
                            &&& post.clock == pre.clock
                            &&& post.desc == pre.desc
                            &&& post.body == pre.body
                        } else if pre.sat_index + 1 == pre.numsat {
                            &&& r->Ok_0 == published(pre, pre.desc@ + sat, pre.clock_value, pre.body@ + text)
                            &&& kernels_published(pre, post, pre.desc@ + sat, pre.clock_value)
                            &&& post.desc@ == pre.desc@ + sat
                            &&& post.body@.len() == 0
                        } else {
                            &&& r->Ok_0.len() == 0
                            &&& post.body@ == pre.body@ + text
                            &&& post.desc@ == pre.desc@ + sat
                            &&& post.epoch == pre.epoch
                            &&& post.clock == pre.clock
                        }
                    }
                }
            },
        }
    }
}

/// One RINEX record line in any phase.
pub open spec fn enc_line_step(pre: Encoder, post: Encoder, line: Seq<u8>, r: Result<Seq<u8>, CodecError>) -> bool {
    if pre.phase == EncPhase::Event {
        &&& r == Ok::<Seq<u8>, CodecError>(verbatim(line))
        &&& post.pending == pre.pending - 1
        &&& post.phase == (if pre.pending == 1 { EncPhase::Epoch } else { EncPhase::Event })
        &&& post.epoch == pre.epoch
        &&& post.clock == pre.clock
        &&& post.registry == pre.registry
        &&& enc_layout(pre, post)
        &&& post.desc == pre.desc
        &&& post.clock_value == pre.clock_value
        &&& post.numsat == pre.numsat
        &&& post.sat_index == pre.sat_index
        &&& post.values == pre.values
        &&& post.flags == pre.flags
        &&& post.body == pre.body
    } else if pre.phase == EncPhase::Epoch {
        if is_comment(line) {
            r == Ok::<Seq<u8>, CodecError>(verbatim(line)) && post == pre
        } else {
            enc_epoch_step(pre, post, line, r)
        }
    } else if pre.phase == EncPhase::Continuation {
        enc_continuation_step(pre, post, line, r)
    } else {
        enc_obs_step(pre, post, line, r)
    }
}

/// The token written for field `j` of satellite `key` against the kernel
/// kept for it (a new one holds nothing, so a value re-initializes).
pub open spec fn kept_token(reg: Registry, key: u32, j: int, value: Option<i64>, order: usize) -> Seq<u8> {
    if reg.has(key) && j < reg.entry_of(key).values@.len() {
        value_token_for(reg.entry_of(key).values@[j], value, order)
    } else {
        match value {
            None => Seq::empty(),
            Some(v) => reinit_text(order, v),
        }
    }
}

/// The tokens written for a satellite's fields.
pub open spec fn kept_tokens(reg: Registry, key: u32, vals: Seq<Option<i64>>, order: usize) -> Seq<Seq<u8>> {
    Seq::new(vals.len(), |j: int| kept_token(reg, key, j, vals[j], order))
}

/// The registry after satellite `key`'s fields `vals` and flag columns `fl`
/// were encoded: each written field's kernel ran its token, the others are
/// as they were, the flag kernel holds what a decoder recovers, and every
/// other satellite is kept.
pub open spec fn registry_after_enc(
    pre: Registry,
    post: Registry,
    key: u32,
    vals: Seq<Option<i64>>,
    fl: Seq<u8>,
    order: usize,
) -> bool {
    let e = post.entry_of(key);
    let kc = kept_count(pre, key);
    let n = vals.len();
    &&& post.wf()
    &&& post.max_order == pre.max_order
    &&& post.has(key)
    &&& pre.others_kept(post, key)
    &&& e.values@.len() == (if kc < n { n } else { kc })
    &&& forall|j: int|
        0 <= j < n ==> kept_next(pre, key, j, kept_token(pre, key, j, vals[j], order), #[trigger] e.values@[j])
    &&& forall|j: int| n <= j < e.values@.len() ==> #[trigger] e.values@[j] == pre.entry_of(key).values@[j]
    &&& e.flags.line@ == overlay(pre.flags_of(key), text_diff(pre.flags_of(key), fl))
}

/// An encoding session just opened for `header`.
pub open spec fn enc_is_fresh(e: Encoder, header: HeaderInfo, max_order: usize, order: usize) -> bool {
    &&& e.wf()
    &&& e.phase == EncPhase::Epoch
    &&& e.epoch is None
    &&& !e.clock.is_seeded()
    &&& e.clock.max_order == max_order
    &&& e.registry.entries@.len() == 0
    &&& e.registry.max_order == max_order
    &&& e.v3 == (header.rinex_major >= 3)
    &&& e.modern_marker == e.v3
    &&& e.system == (if header.system is Some { header.system->0 } else { SPACE })
    &&& e.codes@ == header.codes@
    &&& e.order == order
    &&& e.values@.len() == 0
    &&& e.flags@.len() == 0
    &&& e.body@.len() == 0
}

/// An encoding run that stops with `err`: the first `k` lines step
/// successfully from a fresh session, then line `k` fails with `err`, or
/// (every line having stepped) the stream ends inside an epoch and `err` is
/// `TruncatedStream`.
pub open spec fn enc_failed_run(
    header: HeaderInfo,
    max_order: usize,
    order: usize,
    lines: Seq<Vec<u8>>,
    states: Seq<Encoder>,
    outs: Seq<Seq<u8>>,
    k: int,
    post: Encoder,
    err: CodecError,
) -> bool {
    &&& 0 <= k <= lines.len()
    &&& states.len() == k + 1
    &&& outs.len() == k
    &&& enc_is_fresh(states[0], header, max_order, order)
    &&& forall|i: int|
        0 <= i < k ==> enc_line_step(
            #[trigger] states[i],
            states[i + 1],
            lines[i]@,
            Ok::<Seq<u8>, CodecError>(outs[i]),
        )
    &&& if k < lines.len() {
        enc_line_step(states[k], post, lines[k]@, Err::<Seq<u8>, CodecError>(err))
    } else {
        states[k].phase != EncPhase::Epoch && err == CodecError::TruncatedStream
    }
}

/// Reading one more field extends the values, the flag columns and the
/// run of readable fields by that field.
proof fn lemma_read_one_more(
    line: Seq<u8>,
    start: int,
    j: nat,
    v: Option<i64>,
    lli: u8,
    ssi: u8,
    v0: Seq<Option<i64>>,
    f0: Seq<u8>,
)
    requires
        read_ok(line, start, j),
        rinex_value(line, start + 16 * j, 14, 3) == Ok::<Option<i64>, CodecError>(v),
        flag_pair(line, start, j as int) == seq![lli, ssi],
    ensures
        (v0 + read_values(line, start, j)).push(v) == v0 + read_values(line, start, j + 1),
        (f0 + read_flags(line, start, j)).push(lli).push(ssi) == f0 + read_flags(line, start, j + 1),
        read_ok(line, start, j + 1),
{
    assert(read_values(line, start, j + 1) =~= read_values(line, start, j).push(v));
    assert((v0 + read_values(line, start, j)).push(v) =~= v0 + read_values(line, start, j + 1));
    assert((f0 + read_flags(line, start, j)).push(lli).push(ssi) =~= f0 + read_flags(line, start, j + 1));
    assert forall|t: int| 0 <= t < j + 1 implies (#[trigger] rinex_value(line, start + 16 * t, 14, 3)) is Ok by {
        if t < j {
            assert(read_ok(line, start, j));
        }
    }
}

/// Where the encoder stands in the RINEX record stream.
#[derive(Debug, Clone, Copy, PartialEq, Eq, Structural)]
pub enum EncPhase {
    /// Next line is an epoch line.
    Epoch,
    /// Next line continues the satellite list of a legacy epoch line.
    Continuation,
    /// Next line holds observations of the pending epoch.
    Observation,
    /// Next lines are the special records of an event epoch.
    Event,
}

/// Encoding session of one RINEX observation file, from the first epoch on.
pub struct Encoder {
    /// Epoch lines re-initialize with `>` (CRINEX 3) rather than `&`.
    pub modern_marker: bool,
    /// Records use the RINEX 3 layout.
    pub v3: bool,
    pub system: u8,
    pub codes: Vec<SystemCodes>,
    /// Order of the numeric differences emitted.
    pub order: usize,
    pub phase: EncPhase,
    pub epoch: Option<TextKernel>,
    pub clock: NumKernel,
    pub registry: Registry,
    /// Description of the pending epoch, as far as it is known.
    pub desc: Vec<u8>,
    pub clock_value: Option<i64>,
    pub numsat: usize,
    pub sat_index: usize,
    /// Continuation lines or special records still expected.
    pub pending: usize,
    /// Legacy layout: fields of the current satellite read so far.
    pub values: Vec<Option<i64>>,
    pub flags: Vec<u8>,
    /// Modern layout: compact observation lines of the pending epoch.
    pub body: Vec<u8>,
}

impl Encoder {
    pub open spec fn wf(&self) -> bool {
        &&& self.clock.wf()
        &&& self.registry.wf()
        &&& self.clock.max_order == self.registry.max_order
        &&& self.order <= self.registry.max_order
        &&& self.order <= 9
        &&& self.numsat <= 999
        &&& self.phase == EncPhase::Observation ==> self.sat_index < self.numsat
        &&& self.phase == EncPhase::Observation && !self.v3 ==> self.desc@.len() >= 31 + 3 * self.numsat
        &&& self.phase == EncPhase::Event ==> self.pending > 0
        &&& self.phase == EncPhase::Continuation ==> self.pending > 0 && !self.v3
    }

    /// Opens a session for a RINEX file with this header, emitting numeric
    /// differences of `order` (at most `max_order`, and a single digit).
    pub fn new(header: HeaderInfo, max_order: usize, order: usize) -> (r: Result<Encoder, CodecError>)
        requires
            max_order < usize::MAX,
        ensures
            !header.observation ==> r == Err::<Encoder, CodecError>(CodecError::UnsupportedRecordType),
            header.observation && (order > max_order || order > 9) ==> r == Err::<Encoder, CodecError>(
                CodecError::InvalidOrder,
            ),
            header.observation && order <= max_order && order <= 9 ==> r is Ok && enc_is_fresh(
                r->Ok_0,
                header,
                max_order,
                order,
            ),
    {
        if !header.observation {
            return Err(CodecError::UnsupportedRecordType);
        }
        if order > max_order || order > 9 {
            return Err(CodecError::InvalidOrder);
        }
        let v3 = header.rinex_major >= 3;
        Ok(Encoder {
            modern_marker: v3,
            v3,
            system: match header.system {
                Some(c) => c,
                None => SPACE,
            },
            codes: header.codes,
            order,
            phase: EncPhase::Epoch,
            epoch: None,
            clock: NumKernel::new(max_order),
            registry: Registry::new(max_order),
            desc: Vec::new(),
            clock_value: None,
            numsat: 0,
            sat_index: 0,
            pending: 0,
            values: Vec::new(),
            flags: Vec::new(),
            body: Vec::new(),
        })
    }

    /// Emits the pending epoch: its compact epoch line, its clock line, and
    /// (modern layout) its compact observation lines.
    fn emit_epoch(&mut self) -> (r: Vec<u8>)
        requires
            old(self).wf(),
        ensures
            final(self).wf(),
            r@ == compact_epoch_text(old(self).epoch, old(self).modern_marker, trim_end(old(self).desc@))
                + value_token_for(old(self).clock, old(self).clock_value, old(self).order)
                + seq![NEWLINE] + old(self).body@,
            final(self).registry == old(self).registry,
            final(self).phase == old(self).phase,
            final(self).numsat == old(self).numsat,
            final(self).sat_index == old(self).sat_index,
            final(self).pending == old(self).pending,
            final(self).desc == old(self).desc,
            final(self).v3 == old(self).v3,
            final(self).body@.len() == 0,
            final(self).values == old(self).values,
            final(self).flags == old(self).flags,
            final(self).modern_marker == old(self).modern_marker,
            final(self).order == old(self).order,
            final(self).codes == old(self).codes,
            final(self).system == old(self).system,
            final(self).clock_value == old(self).clock_value,
            kernels_published(*old(self), *final(self), old(self).desc@, old(self).clock_value),
    {
        let desc = trimmed_end_from(self.desc.as_slice(), 0);
        assert(self.desc@.subrange(0, self.desc@.len() as int) =~= self.desc@);
        let mut out = compact_epoch_line(&mut self.epoch, self.modern_marker, desc.as_slice());
        let c = encode_value(&mut self.clock, self.clock_value, self.order);
        push_all(&mut out, &c);
        out.push(NEWLINE);
        push_all(&mut out, &self.body);
        self.body = Vec::new();
        out
    }

    /// Reads an epoch line.
    fn step_epoch(&mut self, line: &[u8]) -> (r: Result<Vec<u8>, CodecError>)
        requires
            old(self).wf(),
            old(self).phase == EncPhase::Epoch,
        ensures
            r is Ok ==> final(self).wf(),
            enc_epoch_step(*old(self), *final(self), line@, crate::decoder::text_of(r)),
    {
        let v3 = self.v3;
        let head: Vec<u8> = if v3 {
            if line.len() < 35 || line[0] != 62u8 {
                return Err(CodecError::MalformedEpochHeader);
            }
            column_slice(line, 1, 34)
        } else {
            let h = column_slice(line, 1, 67);
            assert(h@.subrange(0, h@.len() as int) =~= h@);
            trimmed_end_from(h.as_slice(), 0)
        };
        let flag = match epoch_flag(head.as_slice(), v3) {
            Some(f) => f,
            None => {
                return Err(CodecError::MalformedEpochHeader);
            },
        };
        let n = match epoch_count(head.as_slice(), v3) {
            Some(n) => n,
            None => {
                return Err(CodecError::MalformedEpochHeader);
            },
        };
        if flag > 1 {
            assert(head@.subrange(0, head@.len() as int) =~= head@);
            let desc = trimmed_end_from(head.as_slice(), 0);
            let out = compact_epoch_line(&mut self.epoch, self.modern_marker, desc.as_slice());
            self.pending = n;
            self.phase = if n > 0 {
                EncPhase::Event
            } else {
                EncPhase::Epoch
            };
            return Ok(out);
        }
        let clock = if v3 {
            read_value(line, 41, 15, 12)
        } else {
            read_value(line, 68, 12, 9)
        };
        let clock = match clock {
            Ok(c) => c,
            Err(e) => {
                return Err(e);
            },
        };
        self.clock_value = clock;
        self.numsat = n;
        self.sat_index = 0;
        self.values = Vec::new();
        self.flags = Vec::new();
        self.body = Vec::new();
        self.desc = head;
        if v3 {
            push_blanks(&mut self.desc, 6);
            if n == 0 {
                return Ok(self.emit_epoch());
            }
            self.phase = EncPhase::Observation;
            return Ok(Vec::new());
        }
        if n > 12 {
            self.pending = (n - 1) / 12;
            self.phase = EncPhase::Continuation;
            return Ok(Vec::new());
        }
        let ghost mid = *self;
        assert(mid.body@ =~= Seq::<u8>::empty());
        assert(mid.values@ =~= Seq::<Option<i64>>::empty());
        let r = self.finish_legacy_header();
        proof {
            let pre = *old(self);
            assert(published(mid, mid.desc@, mid.clock_value, mid.body@) == published(pre, mid.desc@, mid.clock_value, Seq::empty()));
            if r is Ok {
                assert(kernels_published(mid, *self, mid.desc@, mid.clock_value));
                assert(kernels_published(pre, *self, mid.desc@, mid.clock_value));
                assert(enc_layout(pre, *self));
            }
        }
        r
    }

    /// The legacy satellite list is complete: publish the epoch.
    fn finish_legacy_header(&mut self) -> (r: Result<Vec<u8>, CodecError>)
        requires
            old(self).wf(),
            !old(self).v3,
            old(self).phase != EncPhase::Event,
        ensures
            r is Ok ==> final(self).wf(),
            legacy_publish(*old(self), *final(self), old(self).desc@, crate::decoder::text_of(r)),
            r is Ok ==> final(self).pending == old(self).pending,
    {
        if self.desc.len() < 31 + 3 * self.numsat {
            return Err(CodecError::MalformedEpochHeader);
        }
        let out = self.emit_epoch();
        self.sat_index = 0;
        self.phase = if self.numsat > 0 {
            EncPhase::Observation
        } else {
            EncPhase::Epoch
        };
        Ok(out)
    }

    /// Reads a continuation line of a legacy satellite list.
    fn step_continuation(&mut self, line: &[u8]) -> (r: Result<Vec<u8>, CodecError>)
        requires
            old(self).wf(),
            old(self).phase == EncPhase::Continuation,
            !old(self).v3,
        ensures
            r is Ok ==> final(self).wf(),
            enc_continuation_step(*old(self), *final(self), line@, text_of(r)),
    {
        let more = column_slice(line, 32, 36);
        assert(more@.subrange(0, more@.len() as int) =~= more@);
        let more = trimmed_end_from(more.as_slice(), 0);
        push_all(&mut self.desc, &more);
        self.pending = self.pending - 1;
        if self.pending > 0 {
            return Ok(Vec::new());
        }
        self.phase = EncPhase::Epoch;
        let ghost mid = *self;
        let r = self.finish_legacy_header();
        proof {
            let pre = *old(self);
            assert(published(mid, mid.desc@, mid.clock_value, mid.body@) == published(pre, mid.desc@, pre.clock_value, pre.body@));
            if r is Ok {
                assert(kernels_published(mid, *self, mid.desc@, mid.clock_value));
                assert(kernels_published(pre, *self, mid.desc@, pre.clock_value));
                assert(enc_layout(pre, *self));
            }
        }
        r
    }

    /// Compresses the fields of one satellite.
    fn compress_satellite(&mut self, sat: &[u8], values: &Vec<Option<i64>>, flags: &[u8]) -> (r: Vec<u8>)
        requires
            old(self).wf(),
            sat@.len() == 3,
        ensures
            final(self).wf(),
            final(self).phase == old(self).phase,
            final(self).numsat == old(self).numsat,
            final(self).sat_index == old(self).sat_index,
            final(self).pending == old(self).pending,
            final(self).desc == old(self).desc,
            final(self).v3 == old(self).v3,
            final(self).body == old(self).body,
            final(self).epoch == old(self).epoch,
            final(self).clock == old(self).clock,
            final(self).clock_value == old(self).clock_value,
            final(self).values == old(self).values,
            final(self).flags == old(self).flags,
            final(self).modern_marker == old(self).modern_marker,
            final(self).order == old(self).order,
            final(self).codes == old(self).codes,
            final(self).system == old(self).system,
            r@ == compact_obs_line(
                kept_tokens(old(self).registry, sat_key(sat@), values@, old(self).order),
                text_diff(old(self).registry.flags_of(sat_key(sat@)), flags@),
            ),
            forall|i: int|
                0 <= i < values@.len() ==> kept_outcome(
                    old(self).registry,
                    sat_key(sat@),
                    i,
                    #[trigger] kept_tokens(old(self).registry, sat_key(sat@), values@, old(self).order)[i],
                ) == Ok::<Option<i64>, CodecError>(values@[i]),
            registry_after_enc(old(self).registry, final(self).registry, sat_key(sat@), values@, flags@, old(self).order),
    {
        let key = satellite_key(sat);
        let max = self.registry.max_order;
        let ghost reg0 = self.registry;
        let ghost order = self.order;
        let mut entry = self.registry.take(key);
        let ghost mid = self.registry;
        let ghost flags0 = entry.flags.line@;
        let ghost kc = kept_count(reg0, key);
        assert(entry.values@.len() == kc);
        assert forall|j: int| 0 <= j < entry.values@.len() implies kept_kernel(
            #[trigger] entry.values@[j],
            reg0,
            key,
            j,
        ) by {}
        while entry.values.len() < values.len()
            invariant
                entry.wf(max),
                entry.key == key,
                entry.flags.line@ == flags0,
                max == reg0.max_order,
                max < usize::MAX,
                kc == kept_count(reg0, key),
                entry.values@.len() >= kc,
                entry.values@.len() > kc ==> entry.values@.len() <= values@.len(),
                reg0.has(key) ==> entry.values@.len() >= reg0.entry_of(key).values@.len(),
                forall|j: int| 0 <= j < entry.values@.len() ==> kept_kernel(#[trigger] entry.values@[j], reg0, key, j),
            decreases values@.len() - entry.values@.len(),
        {
            entry.values.push(NumKernel::new(max));
        }
        let ghost kernels = entry.values@;
        let out = encode_obs(&mut entry, values, flags, self.order, max);
        proof {
            let toks = obs_tokens(kernels, values@, order);
            assert(flags0 == reg0.flags_of(key));
            assert forall|i: int| 0 <= i < values@.len() implies #[trigger] toks[i] == kept_tokens(reg0, key, values@, order)[i] by {
                if !(reg0.has(key) && i < reg0.entry_of(key).values@.len()) {
                    assert(!kernels[i].is_seeded());
                }
            }
            assert(toks =~= kept_tokens(reg0, key, values@, order));
            assert forall|i: int| 0 <= i < values@.len() implies kept_outcome(
                reg0,
                key,
                i,
                #[trigger] toks[i],
            ) == Ok::<Option<i64>, CodecError>(values@[i]) by {
                lemma_kept_outcome(kernels[i], reg0, key, i, toks[i]);
            }
            assert forall|i: int| 0 <= i < values@.len() implies kept_next(reg0, key, i, kept_token(reg0, key, i, values@[i], order), #[trigger] entry.values@[i]) by {
                assert(toks[i] == kept_token(reg0, key, i, values@[i], order));
                crate::decoder::lemma_kept_next(kernels[i], reg0, key, i, toks[i], entry.values@[i]);
            }
        }
        let ghost placed = entry;
        self.registry.put(entry);
        proof {
            let post = self.registry;
            assert(post.entry_of(key) == placed);
            assert forall|k: u32| k != key implies (reg0.has(k) <==> post.has(k)) && (reg0.has(k) ==> post.entry_of(k)
                == #[trigger] reg0.entry_of(k)) by {
                assert(reg0.others_kept(mid, key));
                assert(mid.others_kept(post, key));
                if reg0.has(k) {
                    assert(mid.entry_of(k) == reg0.entry_of(k));
                }
            }
        }
        out
    }

    /// Reads one observation line.
    fn step_observation(&mut self, line: &[u8]) -> (r: Result<Vec<u8>, CodecError>)
        requires
            old(self).wf(),
            old(self).phase == EncPhase::Observation,
        ensures
            r is Ok ==> final(self).wf(),
            enc_obs_step(*old(self), *final(self), line@, text_of(r)),
    {
        let v3 = self.v3;
        let sat: Vec<u8> = if v3 {
            if line.len() < 3 {
                return Err(CodecError::MalformedRecord);
            }
            column_slice(line, 0, 3)
        } else {
            column_slice(self.desc.as_slice(), 31 + 3 * self.sat_index, 3)
        };
        assert(sat@ == enc_sat(*old(self), line@));
        let letter = if sat[0] == SPACE {
            self.system
        } else {
            sat[0]
        };
        let n = match codes_for(&self.codes, letter) {
            Some(n) => n,
            None => {
                return Err(CodecError::UnknownConstellation);
            },
        };
        assert(code_count(old(self).codes@, system_of(sat@, old(self).system)) == Some(n));
        let limit: usize = if v3 {
            n
        } else {
            5
        };
        let mut a: usize = if v3 {
            3
        } else {
            0
        };
        let ghost start: int = obs_start(v3);
        let ghost v0 = self.values@;
        let ghost f0 = self.flags@;
        let ghost k = fields_in_line(v3, n as nat, v0.len());
        let mut j: usize = 0;
        while j < limit && self.values.len() < n
            invariant
                self.wf(),
                self.phase == EncPhase::Observation,
                self.v3 == v3,
                v3 == old(self).v3,
                self.numsat == old(self).numsat,
                self.sat_index == old(self).sat_index,
                self.desc == old(self).desc,
                self.pending == old(self).pending,
                self.registry == old(self).registry,
                self.epoch == old(self).epoch,
                self.clock == old(self).clock,
                self.clock_value == old(self).clock_value,
                self.body == old(self).body,
                self.modern_marker == old(self).modern_marker,
                self.order == old(self).order,
                self.codes == old(self).codes,
                self.system == old(self).system,
                sat@ == enc_sat(*old(self), line@),
                sat@.len() == 3,
                code_count(old(self).codes@, system_of(sat@, old(self).system)) == Some(n),
                v3 ==> line@.len() >= 3,
                limit == (if v3 { n } else { 5 }),
                start == obs_start(v3),
                v0 == old(self).values@,
                f0 == old(self).flags@,
                k == fields_in_line(v3, n as nat, v0.len()),
                j <= limit,
                j <= k,
                self.values@ == v0 + read_values(line@, start, j as nat),
                self.flags@ == f0 + read_flags(line@, start, j as nat),
                read_ok(line@, start, j as nat),
                a as int == (if start + 16 * j < line@.len() { start + 16 * j } else { line@.len() as int }),
            decreases limit - j,
        {
            let ghost p = start + 16 * j;
            let (v, lli, ssi) = match read_field(line, a) {
                Ok(t) => t,
                Err(e) => {
                    proof {
                        if p >= line@.len() {
                            lemma_past_end(line@, p, a as int);
                        }
                        assert(j < k);
                        assert(!((#[trigger] rinex_value(line@, start + 16 * j, 14, 3)) is Ok));
                        let jj: int = j as int;
                        assert(!(rinex_value(line@, start + 16 * jj, 14, 3) is Ok));
                        assert(!read_ok(line@, start, k)) by {
                            if read_ok(line@, start, k) {
                                assert(rinex_value(line@, start + 16 * jj, 14, 3) is Ok);
                            }
                        }
                    }
                    return Err(e);
                },
            };
            proof {
                if p >= line@.len() {
                    lemma_past_end(line@, p, a as int);
                }
            }
            self.values.push(v);
            self.flags.push(lli);
            self.flags.push(ssi);
            proof {
                lemma_read_one_more(line@, start, j as nat, v, lli, ssi, v0, f0);
            }
            a = if a < line.len() && line.len() - a > 16 {
                a + 16
            } else {
                line.len()
            };
            j += 1;
        }
        assert(j == k);
        if self.values.len() < n {
            return Ok(Vec::new());
        }
        let mut values: Vec<Option<i64>> = Vec::new();
        let mut flags: Vec<u8> = Vec::new();
        std::mem::swap(&mut values, &mut self.values);
        std::mem::swap(&mut flags, &mut self.flags);
        let ghost pre = *old(self);
        let mut out = self.compress_satellite(sat.as_slice(), &values, flags.as_slice());
        let ghost toks = kept_tokens(pre.registry, sat_key(sat@), values@, pre.order);
        out.push(NEWLINE);
        let ghost text = out@;
        assert(text == compact_obs_line(toks, text_diff(pre.registry.flags_of(sat_key(sat@)), flags@)) + seq![NEWLINE]);
        let ghost mid = *self;
        if v3 {
            push_all(&mut self.body, &out);
            push_all(&mut self.desc, &sat);
            out = Vec::new();
        }
        self.sat_index = self.sat_index + 1;
        if self.sat_index == self.numsat {
            self.phase = EncPhase::Epoch;
            if v3 {
                out = self.emit_epoch();
                proof {
                    assert(kernels_published(pre, *self, pre.desc@ + sat@, pre.clock_value));
                }
            }
        }
        Ok(out)
    }

    /// Encodes one RINEX record line and returns the compact lines it
    /// completes, possibly none (each ending in a newline).
    pub fn encode_line(&mut self, line: &[u8]) -> (r: Result<Vec<u8>, CodecError>)
        requires
            old(self).wf(),
        ensures
            r is Ok ==> final(self).wf(),
            enc_line_step(*old(self), *final(self), line@, text_of(r)),
    {
        if self.phase == EncPhase::Event {
            let mut out: Vec<u8> = Vec::new();
            push_range(&mut out, line, 0, line.len());
            out.push(NEWLINE);
            assert(line@.subrange(0, line@.len() as int) =~= line@);
            self.pending = self.pending - 1;
            if self.pending == 0 {
                self.phase = EncPhase::Epoch;
            }
            return Ok(out);
        }
        match self.phase {
            EncPhase::Epoch => {
                if comment_line(line) {
                    let mut out: Vec<u8> = Vec::new();
                    push_range(&mut out, line, 0, line.len());
                    out.push(NEWLINE);
                    assert(line@.subrange(0, line@.len() as int) =~= line@);
                    return Ok(out);
                }
                self.step_epoch(line)
            },
            EncPhase::Continuation => self.step_continuation(line),
            _ => self.step_observation(line),
        }
    }

    /// Ends the session: the stream must not stop inside an epoch.
    pub fn finish(&self) -> (r: Result<(), CodecError>)
        ensures
            self.phase == EncPhase::Epoch ==> r == Ok::<(), CodecError>(()),
            self.phase != EncPhase::Epoch ==> r == Err::<(), CodecError>(CodecError::TruncatedStream),
    {
        if self.phase == EncPhase::Epoch {
            Ok(())
        } else {
            Err(CodecError::TruncatedStream)
        }
    }
}

/// A trace of `i` encoding steps extended by one more step.
proof fn lemma_enc_trace_extend(
    states: Seq<Encoder>,
    outs: Seq<Seq<u8>>,
    lines: Seq<Vec<u8>>,
    i: int,
    pre: Encoder,
    post: Encoder,
    text: Seq<u8>,
)
    requires
        0 <= i < lines.len(),
        states.len() == i + 1,
        outs.len() == i,
        states.last() == pre,
        forall|k: int|
            0 <= k < i ==> enc_line_step(
                #[trigger] states[k],
                states[k + 1],
                lines[k]@,
                Ok::<Seq<u8>, CodecError>(outs[k]),
            ),
        enc_line_step(pre, post, lines[i]@, Ok::<Seq<u8>, CodecError>(text)),
    ensures
        joined(outs.push(text)) == joined(outs) + text,
        forall|k: int|
            0 <= k < i + 1 ==> enc_line_step(
                #[trigger] states.push(post)[k],
                states.push(post)[k + 1],
                lines[k]@,
                Ok::<Seq<u8>, CodecError>(outs.push(text)[k]),
            ),
{
    assert(outs.push(text).drop_last() =~= outs);
    assert forall|k: int| 0 <= k < i + 1 implies enc_line_step(
        #[trigger] states.push(post)[k],
        states.push(post)[k + 1],
        lines[k]@,
        Ok::<Seq<u8>, CodecError>(outs.push(text)[k]),
    ) by {
        if k < i {
            assert(states.push(post)[k] == states[k]);
            assert(states.push(post)[k + 1] == states[k + 1]);
            assert(outs.push(text)[k] == outs[k]);
        } else {
            assert(states.push(post)[k] == pre);
        }
    }
}

/// Encodes the record lines of a RINEX observation file (everything after
/// its header) into compact records: the session runs every line in turn,
/// and the stream must end between epochs.
pub fn encode_records(header: HeaderInfo, max_order: usize, order: usize, lines: &Vec<Vec<u8>>) -> (r: Result<
    Vec<u8>,
    CodecError,
>)
    requires
        max_order < usize::MAX,
    ensures
        !header.observation ==> r == Err::<Vec<u8>, CodecError>(CodecError::UnsupportedRecordType),
        header.observation && (order > max_order || order > 9) ==> r == Err::<Vec<u8>, CodecError>(
            CodecError::InvalidOrder,
        ),
        r is Ok ==> exists|states: Seq<Encoder>, outs: Seq<Seq<u8>>|
            {
                &&& states.len() == lines@.len() + 1
                &&& outs.len() == lines@.len()
                &&& enc_is_fresh(states[0], header, max_order, order)
                &&& forall|k: int|
                    0 <= k < lines@.len() ==> enc_line_step(
                        #[trigger] states[k],
                        states[k + 1],
                        lines@[k]@,
                        Ok::<Seq<u8>, CodecError>(outs[k]),
                    )
                &&& states.last().phase == EncPhase::Epoch
                &&& r->Ok_0@ == joined(outs)
            },
        header.observation && order <= max_order && order <= 9 && r is Err ==> exists|
            states: Seq<Encoder>,
            outs: Seq<Seq<u8>>,
            k: int,
            post: Encoder,
        |
            #[trigger] enc_failed_run(header, max_order, order, lines@, states, outs, k, post, r->Err_0),
{
    let ghost h = header;
    let mut e = match Encoder::new(header, max_order, order) {
        Ok(e) => e,
        Err(err) => {
            return Err(err);
        },
    };
    let ghost mut states: Seq<Encoder> = seq![e];
    let ghost mut outs: Seq<Seq<u8>> = Seq::empty();
    let mut out: Vec<u8> = Vec::new();
    let mut i: usize = 0;
    while i < lines.len()
        invariant
            e.wf(),
            i <= lines@.len(),
            h == header,
            h.observation,
            order <= max_order && order <= 9,
            states.len() == i + 1,
            outs.len() == i,
            enc_is_fresh(states[0], h, max_order, order),
            forall|k: int|
                0 <= k < i ==> enc_line_step(
                    #[trigger] states[k],
                    states[k + 1],
                    lines@[k]@,
                    Ok::<Seq<u8>, CodecError>(outs[k]),
                ),
            states.last() == e,
            out@ == joined(outs),
        decreases lines@.len() - i,
    {
        let ghost pre = e;
        let text = match e.encode_line(lines[i].as_slice()) {
            Ok(t) => t,
            Err(err) => {
                proof {
                    assert(enc_failed_run(h, max_order, order, lines@, states, outs, i as int, e, err));
                    let res = Err::<Vec<u8>, CodecError>(err);
                    assert(enc_failed_run(header, max_order, order, lines@, states, outs, i as int, e, res->Err_0));
                }
                return Err(err);
            },
        };
        push_all(&mut out, &text);
        proof {
            lemma_enc_trace_extend(states, outs, lines@, i as int, pre, e, text@);
            states = states.push(e);
            outs = outs.push(text@);
        }
        i += 1;
    }
    match e.finish() {
        Ok(()) => Ok(out),
        Err(err) => {
            proof {
                assert(states[lines@.len() as int] == e);
                let res = Err::<Vec<u8>, CodecError>(err);
                assert(enc_failed_run(header, max_order, order, lines@, states, outs, lines@.len() as int, e, res->Err_0));
            }
            Err(err)
        },
    }
}

/// The compact epoch line of a description: the first one carries the whole
/// description after the re-initialization marker, later ones its text
/// difference from the previous description.
pub open spec fn compact_epoch_text(epoch: Option<TextKernel>, modern: bool, desc: Seq<u8>) -> Seq<u8> {
    match epoch {
        None => seq![if modern { 62u8 } else { 38u8 }] + desc + seq![NEWLINE],
        Some(k) => trim_end(seq![SPACE] + text_diff(k.line@, desc)) + seq![NEWLINE],
    }
}

/// Emits the compact epoch line of `desc` and updates the description kernel.
pub fn compact_epoch_line(epoch: &mut Option<TextKernel>, modern: bool, desc: &[u8]) -> (r: Vec<u8>)
    ensures
        r@ == compact_epoch_text(*old(epoch), modern, desc@),
        *final(epoch) is Some,
        *old(epoch) is None ==> (*final(epoch))->0.line@ == desc@,
        *old(epoch) is Some ==> (*final(epoch))->0.line@ == overlay(
            (*old(epoch))->0.line@,
            text_diff((*old(epoch))->0.line@, desc@),
        ),
{
    let mut out: Vec<u8> = Vec::new();
    match epoch {
        None => {
            out.push(if modern { 62u8 } else { 38u8 });
            push_range(&mut out, desc, 0, desc.len());
            assert(desc@.subrange(0, desc@.len() as int) =~= desc@);
            let mut seed: Vec<u8> = Vec::new();
            push_range(&mut seed, desc, 0, desc.len());
            *epoch = Some(TextKernel::new(seed));
        },
        Some(k) => {
            let t = k.encode(desc);
            let mut l: Vec<u8> = Vec::new();
            l.push(SPACE);
            push_all(&mut l, &t);
            out = trimmed_end_from(l.as_slice(), 0);
            assert(l@.subrange(0, l@.len() as int) =~= l@);
        },
    }
    out.push(NEWLINE);
    out
}

/// Where token `i` starts in the joined tokens.
pub open spec fn tok_start(toks: Seq<Seq<u8>>, i: int) -> int
    decreases i,
{
    if i <= 0 {
        0
    } else {
        tok_start(toks, i - 1) + toks[i - 1].len() + 1
    }
}

pub open spec fn no_blank(t: Seq<u8>) -> bool {
    forall|c: int| 0 <= c < t.len() ==> t[c] != SPACE
}

proof fn lemma_join_layout(toks: Seq<Seq<u8>>)
    requires
        toks.len() >= 1,
    ensures
        join_tokens(toks).len() == tok_start(toks, toks.len() as int) - 1,
        forall|i: int, c: int|
            0 <= i < toks.len() && 0 <= c < toks[i].len() ==> join_tokens(toks)[tok_start(toks, i) + c]
                == #[trigger] toks[i][c],
        forall|i: int|
            0 <= i < toks.len() - 1 ==> join_tokens(toks)[#[trigger] tok_start(toks, i) + toks[i].len()]
                == SPACE,
    decreases toks.len(),
{
    let n = toks.len() as int;
    if n == 1 {
        assert(tok_start(toks, 0) == 0);
        assert(tok_start(toks, 1) == toks[0].len() + 1);
        assert(join_tokens(toks) == toks[0]);
    } else {
        let d = toks.drop_last();
        lemma_join_layout(d);
        assert forall|i: int| 0 <= i <= n - 1 implies #[trigger] tok_start(d, i) == tok_start(toks, i) by {
            lemma_tok_start_prefix(toks, d, i);
        }
        let j = join_tokens(toks);
        assert(j == join_tokens(d) + seq![SPACE] + toks.last());
        assert forall|i: int, c: int|
            0 <= i < toks.len() && 0 <= c < toks[i].len() implies j[tok_start(toks, i) + c] == #[trigger] toks[i][c] by {
            if i < n - 1 {
                assert(d[i] == toks[i]);
                assert(tok_start(d, i) == tok_start(toks, i));
                lemma_tok_start_bound(d, i);
            } else {
                assert(tok_start(d, n - 1) == tok_start(toks, n - 1));
            }
        }
        assert forall|i: int| 0 <= i < toks.len() - 1 implies j[#[trigger] tok_start(toks, i) + toks[i].len()] == SPACE by {
            assert(tok_start(d, i) == tok_start(toks, i));
            assert(d[i] == toks[i]);
            if i < n - 2 {
                lemma_tok_start_bound(d, i);
            }
        }
    }
}

proof fn lemma_tok_start_prefix(toks: Seq<Seq<u8>>, d: Seq<Seq<u8>>, i: int)
    requires
        toks.len() >= 1,
        d == toks.drop_last(),
        0 <= i <= d.len(),
    ensures
        tok_start(d, i) == tok_start(toks, i),
    decreases i,
{
    if i > 0 {
        lemma_tok_start_prefix(toks, d, i - 1);
        assert(d[i - 1] == toks[i - 1]);
    }
}

proof fn lemma_tok_start_bound(toks: Seq<Seq<u8>>, i: int)
    requires
        toks.len() >= 1,
        0 <= i < toks.len(),
    ensures
        tok_start(toks, i) + toks[i].len() <= tok_start(toks, toks.len() as int) - 1,
        tok_start(toks, i) >= 0,
    decreases toks.len() - i,
{
    lemma_tok_start_nonneg(toks, i);
    if i < toks.len() - 1 {
        lemma_tok_start_bound(toks, i + 1);
    }
}

proof fn lemma_tok_start_nonneg(toks: Seq<Seq<u8>>, i: int)
    ensures
        tok_start(toks, i) >= 0,
        i >= 0 ==> tok_start(toks, i) >= i,
    decreases i,
{
    if i > 0 {
        lemma_tok_start_nonneg(toks, i - 1);
    }
}

/// `trim_end(s)` is `s` cut where only blanks follow.
proof fn lemma_trim_end_prefix(s: Seq<u8>)
    ensures
        trim_end(s).len() <= s.len(),
        trim_end(s) == s.subrange(0, trim_end(s).len() as int),
        forall|c: int| trim_end(s).len() <= c < s.len() ==> s[c] == SPACE,
    decreases s.len(),
{
    if s.len() > 0 && s.last() == SPACE {
        lemma_trim_end_prefix(s.drop_last());
        let t = trim_end(s.drop_last());
        assert(t == s.drop_last().subrange(0, t.len() as int));
        assert(s.subrange(0, t.len() as int) =~= s.drop_last().subrange(0, t.len() as int));
        assert forall|c: int| t.len() <= c < s.len() implies s[c] == SPACE by {
            if c < s.len() - 1 {
                assert(s[c] == s.drop_last()[c]);
            }
        }
    } else {
        assert(s.subrange(0, s.len() as int) =~= s);
    }
}

/// A run of non-blank columns ends the token that starts at `pos`.
proof fn lemma_token_end_at(line: Seq<u8>, pos: int, e: int)
    requires
        0 <= pos <= e <= line.len(),
        forall|c: int| pos <= c < e ==> line[c] != SPACE,
        e == line.len() || line[e] == SPACE,
    ensures
        crate::obsline::token_end(line, pos) == e,
    decreases e - pos,
{
    if pos < e {
        lemma_token_end_at(line, pos + 1, e);
    }
}

/// For the decoder, the compact observation line that the encoder writes
/// splits into exactly the encoder's value tokens, whatever the flag text.
pub proof fn law_obs_tokens_read_back(toks: Seq<Seq<u8>>, flags_token: Seq<u8>)
    requires
        toks.len() >= 1,
        forall|i: int| 0 <= i < toks.len() ==> no_blank(#[trigger] toks[i]),
    ensures
        forall|i: int|
            0 <= i < toks.len() ==> crate::obsline::value_token(
                compact_obs_line(toks, flags_token),
                i as nat,
            ) == #[trigger] toks[i],
{
    let j = join_tokens(toks);
    let l0 = j + seq![SPACE] + flags_token;
    let l = trim_end(l0);
    let m = l.len() as int;
    let n = toks.len() as int;
    lemma_join_layout(toks);
    lemma_trim_end_prefix(l0);
    assert forall|i: int, c: int| 0 <= i < n && 0 <= c < toks[i].len() implies l0[tok_start(toks, i) + c] == #[trigger] toks[i][c] by {
        lemma_tok_start_bound(toks, i);
    }
    assert forall|i: int| 0 <= i < n implies l0[#[trigger] tok_start(toks, i) + toks[i].len()] == SPACE by {
        lemma_tok_start_bound(toks, i);
        if i < n - 1 {
            assert(j[tok_start(toks, i) + toks[i].len()] == SPACE);
        }
    }
    // positions, by induction on i
    assert forall|i: int| 0 <= i < n implies crate::obsline::value_token(l, i as nat) == #[trigger] toks[i] by {
        lemma_read_back_at(toks, flags_token, i);
    }
}

/// Token `i` of the trimmed line starts at `min(tok_start(i), m)` and reads as `toks[i]`.
proof fn lemma_read_back_at(toks: Seq<Seq<u8>>, flags_token: Seq<u8>, i: int)
    requires
        toks.len() >= 1,
        forall|t: int| 0 <= t < toks.len() ==> no_blank(#[trigger] toks[t]),
        0 <= i < toks.len(),
    ensures
        ({
            let l = trim_end(join_tokens(toks) + seq![SPACE] + flags_token);
            &&& crate::obsline::token_pos(l, i as nat) == if tok_start(toks, i) < l.len() {
                tok_start(toks, i)
            } else {
                l.len() as int
            }
            &&& crate::obsline::value_token(l, i as nat) == toks[i]
        }),
    decreases i,
{
    let j = join_tokens(toks);
    let l0 = j + seq![SPACE] + flags_token;
    let l = trim_end(l0);
    let m = l.len() as int;
    let n = toks.len() as int;
    lemma_join_layout(toks);
    lemma_trim_end_prefix(l0);
    lemma_tok_start_bound(toks, i);
    let p = tok_start(toks, i);
    let e = p + toks[i].len();
    assert forall|c: int| p <= c < e implies l0[c] != SPACE by {
        assert(l0[p + (c - p)] == toks[i][c - p]);
    }
    assert(l0[e] == SPACE) by {
        if i < n - 1 {
            assert(j[tok_start(toks, i) + toks[i].len()] == SPACE);
        }
    }
    if i > 0 {
        lemma_read_back_at(toks, flags_token, i - 1);
        lemma_tok_start_bound(toks, i - 1);
        let q = tok_start(toks, i - 1);
        let eq = q + toks[i - 1].len();
        assert(p == eq + 1);
        assert forall|c: int| q <= c < eq implies l0[c] != SPACE by {
            assert(l0[q + (c - q)] == toks[i - 1][c - q]);
        }
        assert(l0[eq] == SPACE) by {
            assert(j[tok_start(toks, i - 1) + toks[i - 1].len()] == SPACE);
        }
        if q < m {
            // the previous token lies inside the trimmed line
            if toks[i - 1].len() > 0 {
                assert(l0[eq - 1] != SPACE);
                assert(eq <= m);
            }
            let ee = if eq < m { eq } else { m };
            assert forall|c: int| q <= c < ee implies l[c] != SPACE by {
                assert(l[c] == l0[c]);
            }
            if eq < m {
                assert(l[eq] == l0[eq]);
            }
            lemma_token_end_at(l, q, ee);
        }
    }
    if p < m {
        if toks[i].len() > 0 {
            assert(l0[e - 1] != SPACE);
            assert(e <= m);
        }
        let ee = if e < m { e } else { m };
        if toks[i].len() > 0 {
            assert(ee == e);
        }
        assert forall|c: int| p <= c < ee implies l[c] != SPACE by {
            assert(l[c] == l0[c]);
        }
        if e < m {
            assert(l[e] == l0[e]);
        }
        lemma_token_end_at(l, p, ee);
        assert(l.subrange(p, ee) =~= toks[i]) by {
            assert forall|c: int| 0 <= c < toks[i].len() implies l.subrange(p, ee)[c] == toks[i][c] by {
                assert(l[p + c] == l0[p + c]);
            }
        }
    } else {
        if toks[i].len() > 0 {
            assert(l0[p] == toks[i][0]);
            assert(l0[p] == SPACE);
        }
        assert(toks[i] =~= Seq::<u8>::empty());
    }
}

/// The token written for a value decodes to that value against the same
/// kernel, and holds no blank.
pub proof fn law_value_token_round_trip(k: NumKernel, value: Option<i64>, order: usize)
    requires
        k.wf(),
        order <= k.max_order,
        order <= 9,
    ensures
        field_outcome(k, value_token_for(k, value, order)) == Ok::<Option<i64>, CodecError>(value),
        no_blank(value_token_for(k, value, order)),
        value is Some ==> ({
            let z = differenced_levels(k.history(), value->0 as int, k.top() as int);
            let t = value_token_for(k, value, order);
            if k.is_seeded() && all_fit(z) {
                reinit_token(t) is None && int_token(t) == Some(z[k.top() as int] as i64)
            } else {
                reinit_token(t) == Some((order, value->0))
            }
        }),
{
    match value {
        None => {},
        Some(v) => {
            let top = k.top() as int;
            let z = differenced_levels(k.history(), v as int, top);
            assert(k.history().len() == k.levels@.len());
            if k.is_seeded() && all_fit(z) {
                let x = z[top];
                assert(crate::numdiff::fits_i64(x));
                law_int_text_round_trip(x as i64);
                let t = int_text(x);
                assert(reinit_token(t) is None) by {
                    if t.len() > 2 {
                        assert(t[1] == MINUS || is_digit(t[1]));
                    }
                }
                law_numeric_round_trip(k.history(), v as int, top);
            } else {
                law_int_text_round_trip(v);
                let s = reinit_text(order, v);
                assert(s.subrange(2, s.len() as int) =~= int_text(v as int));
                assert forall|c: int| 0 <= c < s.len() implies s[c] != SPACE by {
                    if c >= 2 {
                        assert(s[c] == int_text(v as int)[c - 2]);
                    }
                }
            }
        },
    }
}

/// Decoding a compact observation line that the encoder wrote, with the same
/// kernels, recovers every value of the satellite's fields.
pub proof fn law_obs_line_round_trip(
    kernels: Seq<NumKernel>,
    values: Seq<Option<i64>>,
    order: usize,
    flags_token: Seq<u8>,
)
    requires
        values.len() >= 1,
        kernels.len() >= values.len(),
        order <= 9,
        forall|i: int| 0 <= i < kernels.len() ==> (#[trigger] kernels[i]).wf() && order <= kernels[i].max_order,
    ensures
        forall|i: int|
            0 <= i < values.len() ==> field_outcome(
                kernels[i],
                crate::obsline::value_token(
                    compact_obs_line(obs_tokens(kernels, values, order), flags_token),
                    i as nat,
                ),
            ) == Ok::<Option<i64>, CodecError>(#[trigger] values[i]),
{
    let toks = obs_tokens(kernels, values, order);
    assert forall|i: int| 0 <= i < toks.len() implies no_blank(#[trigger] toks[i]) by {
        law_value_token_round_trip(kernels[i], values[i], order);
    }
    law_obs_tokens_read_back(toks, flags_token);
    assert forall|i: int| 0 <= i < values.len() implies field_outcome(
        kernels[i],
        crate::obsline::value_token(compact_obs_line(toks, flags_token), i as nat),
    ) == Ok::<Option<i64>, CodecError>(#[trigger] values[i]) by {
        law_value_token_round_trip(kernels[i], values[i], order);
        assert(toks[i] == value_token_for(kernels[i], values[i], order));
    }
}

/// Trimming is idempotent.
proof fn lemma_trim_end_idempotent(s: Seq<u8>)
    ensures
        trim_end(trim_end(s)) == trim_end(s),
    decreases s.len(),
{
    if s.len() > 0 && s.last() == SPACE {
        lemma_trim_end_idempotent(s.drop_last());
    }
}

/// A blank put in front of `t` survives trimming only when `t` has a
/// non-blank character.
proof fn lemma_trim_end_after_blank(t: Seq<u8>)
    ensures
        trim_end(t).len() > 0 ==> trim_end(seq![SPACE] + t) == seq![SPACE] + trim_end(t),
        trim_end(t).len() == 0 ==> trim_end(seq![SPACE] + t).len() == 0,
    decreases t.len(),
{
    let u = seq![SPACE] + t;
    if t.len() == 0 {
        assert(u =~= seq![SPACE]);
        assert(u.drop_last() =~= Seq::<u8>::empty());
        assert(trim_end(Seq::<u8>::empty()).len() == 0);
        assert(trim_end(u) == trim_end(u.drop_last()));
    } else if t.last() == SPACE {
        assert(u.drop_last() =~= seq![SPACE] + t.drop_last());
        assert(u.last() == SPACE);
        lemma_trim_end_after_blank(t.drop_last());
    } else {
        assert(u.last() == t.last());
    }
}

/// The differenced description with its trailing blanks dropped overlays
/// the previous description exactly as the whole difference does.
proof fn lemma_overlay_trimmed_diff(prev: Seq<u8>, desc: Seq<u8>)
    ensures
        overlay(prev, trim_end(text_diff(prev, desc))) == overlay(prev, text_diff(prev, desc)),
{
    let d = text_diff(prev, desc);
    let t = trim_end(d);
    lemma_trim_end_prefix(d);
    assert forall|i: int| t.len() <= i < d.len() implies #[trigger] d[i] == SPACE && i < prev.len() by {
        assert(d[i] == SPACE);
    }
    if d.len() > prev.len() {
        assert(d[d.len() - 1] != SPACE);
        if t.len() < d.len() {
            assert(d[d.len() - 1] == SPACE);
        }
    }
    assert(overlay(prev, t) =~= overlay(prev, d)) by {
        assert forall|i: int| 0 <= i < overlay(prev, d).len() implies overlay(prev, t)[i] == overlay(prev, d)[i] by {
            if i < t.len() {
                assert(t[i] == d[i]);
            }
        }
    }
}

/// Decoding the compact epoch line the encoder writes recovers the
/// description: a later line is a difference (never a re-initialization)
/// that overlays the previous description into `desc`, blank-extended to the
/// previous length; the first line re-initializes with `desc` itself.
pub proof fn law_epoch_line_round_trip(k: TextKernel, desc: Seq<u8>, modern: bool)
    requires
        forall|i: int| 0 <= i < desc.len() ==> desc[i] != crate::textdiff::ERASE,
    ensures
        ({
            let line = compact_epoch_text(Some(k), modern, desc).drop_last();
            &&& !crate::decoder::is_epoch_init(line)
            &&& overlay(k.line@, crate::decoder::epoch_token(line)) == crate::textdiff::pad_to(
                desc,
                k.line@.len(),
            )
        }),
        ({
            let line = compact_epoch_text(None, modern, trim_end(desc)).drop_last();
            &&& crate::decoder::is_epoch_init(line)
            &&& crate::decoder::epoch_token(line) == trim_end(desc)
        }),
{
    let prev = k.line@;
    let d = text_diff(prev, desc);
    lemma_trim_end_after_blank(d);
    lemma_trim_end_idempotent(d);
    let line = trim_end(seq![SPACE] + d);
    assert(compact_epoch_text(Some(k), modern, desc).drop_last() =~= line);
    if trim_end(d).len() > 0 {
        assert(line.subrange(1, line.len() as int) =~= trim_end(d));
    } else {
        assert(crate::decoder::epoch_token(line) =~= trim_end(d));
    }
    lemma_overlay_trimmed_diff(prev, desc);
    crate::textdiff::law_text_round_trip(prev, desc);
    let m = seq![if modern { 62u8 } else { 38u8 }] + trim_end(desc);
    assert(compact_epoch_text(None, modern, trim_end(desc)).drop_last() =~= m);
    assert(m.subrange(1, m.len() as int) =~= trim_end(desc));
    lemma_trim_end_idempotent(desc);
}

/// Trailing blanks of a concatenation come off its second part first.
proof fn lemma_trim_end_concat(a: Seq<u8>, b: Seq<u8>)
    ensures
        trim_end(b).len() > 0 ==> trim_end(a + b) == a + trim_end(b),
        trim_end(b).len() == 0 ==> trim_end(a + b) == trim_end(a),
    decreases b.len(),
{
    if b.len() == 0 {
        assert(a + b =~= a);
    } else if b.last() == SPACE {
        assert((a + b).drop_last() =~= a + b.drop_last());
        assert((a + b).last() == SPACE);
        lemma_trim_end_concat(a, b.drop_last());
    } else {
        assert((a + b).last() == b.last());
    }
}

/// What follows the value tokens of the trimmed compact line is the flag
/// text without its trailing blanks.
proof fn lemma_flags_read_back(toks: Seq<Seq<u8>>, flags_token: Seq<u8>)
    requires
        toks.len() >= 1,
        forall|t: int| 0 <= t < toks.len() ==> no_blank(#[trigger] toks[t]),
    ensures
        crate::obsline::flags_token(compact_obs_line(toks, flags_token), toks.len() as nat) == trim_end(
            flags_token,
        ),
{
    let j = join_tokens(toks);
    let a = j + seq![SPACE];
    let l0 = a + flags_token;
    assert(j + seq![SPACE] + flags_token == l0);
    let l = trim_end(l0);
    let m = l.len() as int;
    let n = toks.len() as int;
    lemma_join_layout(toks);
    lemma_trim_end_prefix(l0);
    lemma_trim_end_concat(a, flags_token);
    lemma_trim_end_prefix(a);
    lemma_read_back_at(toks, flags_token, n - 1);
    lemma_tok_start_bound(toks, n - 1);
    let q = tok_start(toks, n - 1);
    let eq = q + toks[n - 1].len();
    let pn = tok_start(toks, n);
    assert(pn == eq + 1);
    assert(pn == a.len());
    assert forall|c: int| q <= c < eq implies l0[c] != SPACE by {
        assert(l0[q + (c - q)] == toks[n - 1][c - q]);
    }
    assert(l0[eq] == SPACE);
    // position of the flag text in the trimmed line
    let pos = crate::obsline::token_pos(l, n as nat);
    assert(crate::obsline::token_pos(l, n as nat) == crate::obsline::next_pos(
        l,
        crate::obsline::token_pos(l, (n - 1) as nat),
    ));
    if q < m {
        if toks[n - 1].len() > 0 {
            assert(l0[eq - 1] != SPACE);
            assert(eq <= m);
        }
        let ee = if eq < m { eq } else { m };
        assert forall|c: int| q <= c < ee implies l[c] != SPACE by {
            assert(l[c] == l0[c]);
        }
        if eq < m {
            assert(l[eq] == l0[eq]);
        }
        lemma_token_end_at(l, q, ee);
        assert(pos == if pn < m { pn } else { m });
    } else {
        assert(pos == m);
    }
    if trim_end(flags_token).len() > 0 {
        assert(l == a + trim_end(flags_token));
        assert(pos == pn);
        assert(l.subrange(pn, l.len() as int) =~= trim_end(flags_token));
    } else {
        assert(l == trim_end(a));
        assert(m <= pn);
        assert(pos >= m);
        assert(trim_end(flags_token) =~= Seq::<u8>::empty());
    }
}

/// Decoding a compact observation line that the encoder wrote, from the same
/// previous flag columns, recovers the encoder's flag columns (blank-extended
/// to the previous length).
pub proof fn law_obs_flags_round_trip(toks: Seq<Seq<u8>>, prev: Seq<u8>, flags: Seq<u8>)
    requires
        toks.len() >= 1,
        forall|t: int| 0 <= t < toks.len() ==> no_blank(#[trigger] toks[t]),
        forall|i: int| 0 <= i < flags.len() ==> flags[i] != crate::textdiff::ERASE,
    ensures
        overlay(
            prev,
            crate::obsline::flags_token(compact_obs_line(toks, text_diff(prev, flags)), toks.len() as nat),
        ) == crate::textdiff::pad_to(flags, prev.len()),
{
    lemma_flags_read_back(toks, text_diff(prev, flags));
    lemma_overlay_trimmed_diff(prev, flags);
    crate::textdiff::law_text_round_trip(prev, flags);
}

proof fn lemma_trim_start_blanks(k: nat, t: Seq<u8>)
    requires
        t.len() > 0,
        t[0] != SPACE,
    ensures
        trim_start(blanks(k) + t) == t,
    decreases k,
{
    let u = blanks(k) + t;
    if k == 0 {
        assert(u =~= t);
    } else {
        assert(u[0] == SPACE);
        assert(u.drop_first() =~= blanks((k - 1) as nat) + t);
        lemma_trim_start_blanks((k - 1) as nat, t);
    }
}

/// Reading back a published fixed-point field gives the value it was
/// written from.
pub proof fn law_fixed_round_trip(v: i64, d: nat, w: nat)
    requires
        d >= 1,
    ensures
        fixed_value(crate::fields::pad_left(crate::fields::fixed_text(v as int, d), w), d) == Some(v),
{
    let n = abs(v as int);
    let r = reversed(low_digits(n, d + 1));
    lemma_low_digits_text(n, d + 1);
    crate::fields::lemma_low_digits_len(n, d + 1);
    let len = r.len() as int;
    let t = crate::fields::fixed_text(v as int, d);
    let head = r.subrange(0, len - d);
    let tail = r.subrange(len - d, len);
    let sign = if v < 0 { seq![MINUS] } else { Seq::<u8>::empty() };
    assert(t == sign + head + seq![crate::fields::DOT] + tail);
    assert(t.last() == r[len - 1]);
    assert(is_digit(r[len - 1]));
    assert(is_digit(r[0]));
    let padded = crate::fields::pad_left(t, w);
    // no blank to trim at the end, blanks only at the front
    assert(padded.last() == t.last());
    assert(trim_end(padded) == padded);
    if t.len() < w {
        lemma_trim_start_blanks((w - t.len()) as nat, t);
    } else {
        assert(t[0] == MINUS || t[0] == r[0]);
    }
    assert(trim_start(trim_end(padded)) == t);
    let rr = if v < 0 { t.subrange(1, t.len() as int) } else { t };
    assert(v < 0 ==> rr =~= head + seq![crate::fields::DOT] + tail);
    assert(v >= 0 ==> rr =~= head + seq![crate::fields::DOT] + tail);
    let p = rr.len() - d - 1;
    assert(p == len - d);
    assert(rr[p] == crate::fields::DOT);
    assert(rr.subrange(0, p) =~= head);
    assert(rr.subrange(p + 1, rr.len() as int) =~= tail);
    assert(head + tail =~= r);
    assert(sign + rr.subrange(0, p) + rr.subrange(p + 1, rr.len() as int) =~= sign + r);
    if v < 0 {
        assert((sign + r).subrange(1, (sign + r).len() as int) =~= r);
    } else {
        assert(sign + r =~= r);
    }
}

} // verus!
