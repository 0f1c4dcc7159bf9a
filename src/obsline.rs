//! Observation lines: the blank-separated tokens of a compact line and the
//! fixed-column RINEX text of one satellite's observations.
use vstd::prelude::*;

use crate::epoch::{push_all, push_blanks, push_range, NEWLINE};
use crate::fields::{blanks, fixed_text, format_fixed, pad_left, SPACE};

verus! {

/// End of the token that starts at `pos`: the next blank or the end of the line.
pub open spec fn token_end(line: Seq<u8>, pos: int) -> int
    decreases line.len() - pos,
{
    if pos < 0 || pos >= line.len() || line[pos] == SPACE {
        pos
    } else {
        token_end(line, pos + 1)
    }
}

/// The token that starts at `pos` (empty past the end of the line).
pub open spec fn token_at(line: Seq<u8>, pos: int) -> Seq<u8> {
    if pos >= line.len() {
        Seq::empty()
    } else {
        line.subrange(pos, token_end(line, pos))
    }
}

/// Where the token after the one at `pos` starts: past its single separating blank.
pub open spec fn next_pos(line: Seq<u8>, pos: int) -> int {
    if pos >= line.len() {
        pos
    } else if token_end(line, pos) < line.len() {
        token_end(line, pos) + 1
    } else {
        line.len() as int
    }
}

/// Where the `i`-th token of a line starts.
pub open spec fn token_pos(line: Seq<u8>, i: nat) -> int
    decreases i,
{
    if i == 0 {
        0
    } else {
        next_pos(line, token_pos(line, (i - 1) as nat))
    }
}

/// The `i`-th value token of a compact observation line.
pub open spec fn value_token(line: Seq<u8>, i: nat) -> Seq<u8> {
    token_at(line, token_pos(line, i))
}

/// What follows the first `n` value tokens: the differenced flag columns.
pub open spec fn flags_token(line: Seq<u8>, n: nat) -> Seq<u8> {
    let p = token_pos(line, n);
    if p < line.len() {
        line.subrange(p, line.len() as int)
    } else {
        Seq::empty()
    }
}

proof fn lemma_token_end_bounds(line: Seq<u8>, pos: int)
    requires
        0 <= pos <= line.len(),
    ensures
        pos <= token_end(line, pos) <= line.len(),
        forall|k: int| pos <= k < token_end(line, pos) ==> line[k] != SPACE,
        token_end(line, pos) < line.len() ==> line[token_end(line, pos)] == SPACE,
    decreases line.len() - pos,
{
    if pos < line.len() && line[pos] != SPACE {
        lemma_token_end_bounds(line, pos + 1);
    }
}

/// Reads the token at `pos`; returns it with the start of the next one.
pub fn next_token(line: &[u8], pos: usize) -> (r: (Vec<u8>, usize))
    requires
        pos <= line@.len(),
    ensures
        r.0@ == token_at(line@, pos as int),
        r.1 as int == next_pos(line@, pos as int),
        r.1 <= line@.len(),
{
    let n = line.len();
    let mut out: Vec<u8> = Vec::new();
    let mut e: usize = pos;
    proof {
        lemma_token_end_bounds(line@, pos as int);
    }
    while e < n && line[e] != SPACE
        invariant
            pos <= e <= n,
            n == line@.len(),
            token_end(line@, e as int) == token_end(line@, pos as int),
            out@ == line@.subrange(pos as int, e as int),
        decreases n - e,
    {
        proof {
            lemma_token_end_bounds(line@, e + 1);
        }
        out.push(line[e]);
        e += 1;
        assert(out@ =~= line@.subrange(pos as int, e as int));
    }
    let next: usize = if pos >= n {
        pos
    } else if e < n {
        e + 1
    } else {
        n
    };
    if pos >= n {
        assert(out@ =~= Seq::<u8>::empty());
    }
    (out, next)
}

/// A flag column, blank past the end of the recovered flags.
pub open spec fn flag_char(flags: Seq<u8>, j: int) -> u8 {
    if 0 <= j < flags.len() {
        flags[j]
    } else {
        SPACE
    }
}

/// One observation field: the value in thousandths, fourteen columns with
/// three decimals, then its loss-of-lock and signal-strength columns; all
/// sixteen columns blank when the value is absent.
pub open spec fn obs_field_text(value: Option<i64>, flags: Seq<u8>, i: int) -> Seq<u8> {
    match value {
        Some(v) => pad_left(fixed_text(v as int, 3), 14) + seq![
            flag_char(flags, 2 * i),
            flag_char(flags, 2 * i + 1),
        ],
        None => blanks(16),
    }
}

/// The first `n` fields; a legacy layout breaks the line after every fifth field.
pub open spec fn obs_body(values: Seq<Option<i64>>, flags: Seq<u8>, v3: bool, n: nat) -> Seq<u8>
    decreases n,
{
    if n == 0 {
        Seq::empty()
    } else {
        let i = n - 1;
        let brk = if !v3 && i > 0 && i % 5 == 0 {
            seq![NEWLINE]
        } else {
            Seq::<u8>::empty()
        };
        obs_body(values, flags, v3, i as nat) + brk + obs_field_text(values[i], flags, i)
    }
}

/// The RINEX text of one satellite's observations: the modern layout opens
/// with the satellite identifier; every line ends in a newline.
pub open spec fn obs_text(sat: Seq<u8>, values: Seq<Option<i64>>, flags: Seq<u8>, v3: bool) -> Seq<
    u8,
> {
    let head = if v3 {
        sat
    } else {
        Seq::<u8>::empty()
    };
    head + obs_body(values, flags, v3, values.len()) + seq![NEWLINE]
}

/// Writes the `i`-th observation field.
pub fn format_obs_field(value: Option<i64>, flags: &[u8], i: usize) -> (r: Vec<u8>)
    ensures
        r@ == obs_field_text(value, flags@, i as int),
{
    match value {
        Some(v) => {
            let mut out = format_fixed(v, 3, 14);
            let n = flags.len();
            let lli: u8 = if i <= n / 2 && 2 * i < n {
                flags[2 * i]
            } else {
                SPACE
            };
            let ssi: u8 = if i < n / 2 {
                flags[2 * i + 1]
            } else {
                SPACE
            };
            out.push(lli);
            out.push(ssi);
            assert(out@ =~= obs_field_text(value, flags@, i as int));
            out
        },
        None => {
            let mut out: Vec<u8> = Vec::new();
            push_blanks(&mut out, 16);
            assert(out@ =~= blanks(16));
            out
        },
    }
}

/// Writes one satellite's observations as RINEX text.
pub fn format_obs(sat: &[u8], values: &Vec<Option<i64>>, flags: &[u8], v3: bool) -> (r: Vec<u8>)
    ensures
        r@ == obs_text(sat@, values@, flags@, v3),
{
    let mut out: Vec<u8> = Vec::new();
    if v3 {
        push_range(&mut out, sat, 0, sat.len());
        assert(sat@.subrange(0, sat@.len() as int) =~= sat@);
    }
    let ghost head = out@;
    let n = values.len();
    let mut i: usize = 0;
    while i < n
        invariant
            i <= n,
            n == values@.len(),
            out@ == head + obs_body(values@, flags@, v3, i as nat),
        decreases n - i,
    {
        if !v3 && i > 0 && i % 5 == 0 {
            out.push(NEWLINE);
        }
        let field = format_obs_field(values[i], flags, i);
        push_all(&mut out, &field);
        i += 1;
        assert(out@ =~= head + obs_body(values@, flags@, v3, i as nat));
    }
    out.push(NEWLINE);
    out
}

} // verus!
