//! The record state machine that turns a compact record stream back into
//! RINEX observation records, one input line at a time.
use vstd::prelude::*;

use crate::epoch::{
    count_of, count_offset, epoch_count, epoch_flag, epoch_text, flag_of, format_epoch, push_all,
    push_range, sat_column, sat_offset, NEWLINE,
};
use crate::error::CodecError;
use crate::fields::{
    blanks, int_token, parse_int, parse_reinit, reinit_token, tail_of, trim_end, trim_start,
    trimmed, trimmed_end_from, SPACE,
};
use crate::header::{
    contains, crinex_program_label, crinex_version_label, end_of_header_label, is_end_of_header,
    keep_header_line, views, code_count, codec_header_lines, codec_labels, codes_for, line_label, parse_header, HeaderInfo,
    SystemCodes,
};
use crate::numdiff::{all_fit, next_top, recovered_levels, NumKernel};
use crate::obsline::{
    flags_token, format_obs, next_token, obs_field_text, obs_text, token_pos, value_token,
};
use crate::registry::{sat_key, satellite_key, Registry, SatelliteKernels};
use crate::textdiff::{overlay, TextKernel};

verus! {

/// Re-initialization marker of a legacy epoch line.
pub const V1_EPOCH_INIT: u8 = 38;

/// Re-initialization marker of a modern epoch line.
pub const V3_EPOCH_INIT: u8 = 62;

/// What a numeric field recovers from `token`, given the kernel's maximum
/// order, its stored levels and its configured order: nothing for a blank
/// token, the seed for a re-initialization, the integrated value otherwise.
pub open spec fn outcome(max_order: usize, y: Seq<int>, order: usize, token: Seq<u8>) -> Result<
    Option<i64>,
    CodecError,
> {
    if token.len() == 0 {
        Ok(None)
    } else {
        match reinit_token(token) {
            Some(p) => if p.0 > max_order {
                Err(CodecError::InvalidOrder)
            } else {
                Ok(Some(p.1))
            },
            None => match int_token(token) {
                Some(d) => if y.len() == 0 {
                    Err(CodecError::UninitializedKernel)
                } else {
                    let z = recovered_levels(y, d as int, next_top(y.len(), order as nat) as int);
                    if all_fit(z) {
                        Ok(Some(z[0] as i64))
                    } else {
                        Err(CodecError::NumericOverflow)
                    }
                },
                None => Err(CodecError::MalformedRecord),
            },
        }
    }
}

pub open spec fn field_outcome(k: NumKernel, token: Seq<u8>) -> Result<Option<i64>, CodecError> {
    outcome(k.max_order, k.history(), k.order, token)
}

/// `post` is the kernel after a token was recovered by a kernel of maximum
/// order `max_order`, stored levels `y` and order `order`: unchanged for a
/// blank token, the seed at the new order for a re-initialization, the
/// integrated levels otherwise.
pub open spec fn kernel_after(max_order: usize, y: Seq<int>, order: usize, token: Seq<u8>, post: NumKernel) -> bool {
    &&& post.wf()
    &&& post.max_order == max_order
    &&& token.len() == 0 ==> post.order == order && post.history() == y
    &&& token.len() > 0 && reinit_token(token) is Some ==> ({
        let (o, seed) = reinit_token(token)->0;
        post.order == o && post.history() == seq![seed as int]
    })
    &&& token.len() > 0 && reinit_token(token) is None ==> post.order == order && post.history()
        == recovered_levels(y, int_token(token)->0 as int, next_top(y.len(), order as nat) as int)
}

pub open spec fn field_next(k: NumKernel, token: Seq<u8>, post: NumKernel) -> bool {
    kernel_after(k.max_order, k.history(), k.order, token, post)
}

/// Recovers one numeric field from its token and updates its kernel.
pub fn decode_field(kernel: &mut NumKernel, token: &[u8]) -> (r: Result<Option<i64>, CodecError>)
    requires
        old(kernel).wf(),
    ensures
        final(kernel).wf(),
        final(kernel).max_order == old(kernel).max_order,
        r == field_outcome(*old(kernel), token@),
        r.is_ok() ==> field_next(*old(kernel), token@, *final(kernel)),
        r.is_err() ==> *final(kernel) == *old(kernel),
        token@.len() == 0 ==> *final(kernel) == *old(kernel),
        token@.len() > 0 && reinit_token(token@) is Some && r.is_ok() ==> ({
            let (order, seed) = reinit_token(token@)->0;
            final(kernel).order == order && final(kernel).history() == seq![seed as int]
        }),
        token@.len() > 0 && reinit_token(token@) is None && r.is_ok() ==> final(kernel).order
            == old(kernel).order && final(kernel).history() == recovered_levels(
            old(kernel).history(),
            int_token(token@)->0 as int,
            old(kernel).top() as int,
        ),
{
    if token.len() == 0 {
        return Ok(None);
    }
    match parse_reinit(token) {
        Some((order, seed)) => {
            match kernel.initialize(order, seed) {
                Ok(()) => Ok(Some(seed)),
                Err(e) => Err(e),
            }
        },
        None => match parse_int(token) {
            Some(d) => {
                proof {
                    assert(old(kernel).history().len() == old(kernel).levels@.len());
                }
                match kernel.decode(d) {
                    Ok(v) => Ok(Some(v)),
                    Err(e) => Err(e),
                }
            },
            None => Err(CodecError::MalformedRecord),
        },
    }
}

/// Where the decoder stands in the record stream.
#[derive(Debug, Clone, Copy, PartialEq, Eq, Structural)]
pub enum Phase {
    /// Next line is an epoch description.
    Epoch,
    /// Next line is the receiver clock offset of the pending epoch.
    Clock,
    /// Next lines are the observations of the pending epoch's satellites.
    Observation,
    /// Next lines are the special records of an event epoch.
    Event,
}

/// A description holds its flag and count, and an identifier per satellite.
pub open spec fn desc_ready(desc: Seq<u8>, v3: bool, n: nat) -> bool {
    &&& desc.len() >= count_offset(v3) + 3
    &&& desc.len() >= sat_offset(v3) + 3 * n || n == 0
}

/// The identifier of the `i`-th satellite of a description.
pub open spec fn sat_at(desc: Seq<u8>, v3: bool, i: nat) -> Seq<u8> {
    desc.subrange((sat_offset(v3) + 3 * i) as int, (sat_offset(v3) + 3 * i + 3) as int)
}

/// The constellation of a satellite identifier; a blank letter means the header's.
pub open spec fn system_of(sat: Seq<u8>, default_system: u8) -> u8 {
    if sat[0] == SPACE {
        default_system
    } else {
        sat[0]
    }
}

/// The differenced epoch description carried by an epoch line: everything
/// after its first column, without trailing blanks.
pub open spec fn epoch_token(line: Seq<u8>) -> Seq<u8> {
    if line.len() == 0 {
        Seq::empty()
    } else {
        trim_end(line.subrange(1, line.len() as int))
    }
}

/// A description cut to its satellite list (stale identifiers of a longer
/// former epoch dropped).
pub open spec fn cut_desc(desc: Seq<u8>, v3: bool, n: nat) -> Seq<u8> {
    let end = sat_offset(v3) + 3 * n;
    if desc.len() > end {
        desc.subrange(0, end as int)
    } else {
        desc
    }
}

/// A record line passed through verbatim: `COMMENT` in columns 61 to 67.
pub open spec fn is_comment(line: Seq<u8>) -> bool {
    line.len() >= 67 && line.subrange(60, 67) == seq![67u8, 79, 77, 77, 69, 78, 84]
}

pub fn comment_line(line: &[u8]) -> (r: bool)
    ensures
        r == is_comment(line@),
{
    if line.len() < 67 {
        return false;
    }
    let label: [u8; 7] = [67u8, 79, 77, 77, 69, 78, 84];
    let mut k: usize = 0;
    while k < 7
        invariant
            k <= 7,
            line@.len() >= 67,
            label@ == seq![67u8, 79, 77, 77, 69, 78, 84],
            forall|j: int| 0 <= j < k ==> line@[60 + j] == label@[j],
        decreases 7 - k,
    {
        if line[60 + k] != label[k] {
            assert(line@.subrange(60, 67)[k as int] != label@[k as int]);
            return false;
        }
        k += 1;
    }
    assert(line@.subrange(60, 67) =~= seq![67u8, 79, 77, 77, 69, 78, 84]);
    true
}

/// The outcome of field `j` of satellite `key` against the kernels kept
/// for it (a new satellite's kernels hold nothing).
pub open spec fn kept_outcome(reg: Registry, key: u32, j: int, token: Seq<u8>) -> Result<
    Option<i64>,
    CodecError,
> {
    if reg.has(key) && j < reg.entry_of(key).values@.len() {
        field_outcome(reg.entry_of(key).values@[j], token)
    } else {
        outcome(reg.max_order, Seq::empty(), 0, token)
    }
}

/// The session's layout is the same after a step.
pub open spec fn same_layout(pre: Decoder, post: Decoder) -> bool {
    &&& post.modern_marker == pre.modern_marker
    &&& post.v3 == pre.v3
    &&& post.system == pre.system
    &&& post.codes@ == pre.codes@
}

/// `post` is field `j` of satellite `key` after `token`, starting from the
/// kernel kept for it (a new one holds nothing).
pub open spec fn kept_next(reg: Registry, key: u32, j: int, token: Seq<u8>, post: NumKernel) -> bool {
    if reg.has(key) && j < reg.entry_of(key).values@.len() {
        field_next(reg.entry_of(key).values@[j], token, post)
    } else {
        kernel_after(reg.max_order, Seq::empty(), 0, token, post)
    }
}

/// How many value kernels are kept for `key`.
pub open spec fn kept_count(reg: Registry, key: u32) -> nat {
    if reg.has(key) {
        reg.entry_of(key).values@.len()
    } else {
        0
    }
}

/// The registry after satellite `key`'s compact line `tl` with `n` codes:
/// its first `n` value kernels ran their tokens, the rest are as they were,
/// its flag kernel ran the flag text, and every other satellite is kept.
pub open spec fn registry_after_obs(pre: Registry, post: Registry, key: u32, tl: Seq<u8>, n: nat) -> bool {
    let e = post.entry_of(key);
    let kc = kept_count(pre, key);
    &&& post.wf()
    &&& post.max_order == pre.max_order
    &&& post.has(key)
    &&& pre.others_kept(post, key)
    &&& e.values@.len() == (if kc < n { n } else { kc })
    &&& forall|j: int| 0 <= j < n ==> kept_next(pre, key, j, value_token(tl, j as nat), #[trigger] e.values@[j])
    &&& forall|j: int| n <= j < e.values@.len() ==> #[trigger] e.values@[j] == pre.entry_of(key).values@[j]
    &&& e.flags.line@ == overlay(pre.flags_of(key), flags_token(tl, n))
}

/// The line plus its newline.
pub open spec fn verbatim(line: Seq<u8>) -> Seq<u8> {
    line.push(NEWLINE)
}

/// Whether an epoch line re-initializes the description kernel.
pub open spec fn is_epoch_init(line: Seq<u8>) -> bool {
    line.len() > 0 && (line[0] == V1_EPOCH_INIT || line[0] == V3_EPOCH_INIT)
}

/// The description recovered from an epoch line.
pub open spec fn recovered_desc(pre: Decoder, line: Seq<u8>) -> Seq<u8> {
    if is_epoch_init(line) {
        epoch_token(line)
    } else {
        overlay(pre.epoch->0.line@, epoch_token(line))
    }
}

/// The bytes of a line's result.
pub open spec fn text_of(r: Result<Vec<u8>, CodecError>) -> Result<Seq<u8>, CodecError> {
    match r {
        Ok(v) => Ok(v@),
        Err(e) => Err(e),
    }
}

/// One special record of an event epoch: forwarded verbatim, no kernel touched.
pub open spec fn event_step(pre: Decoder, post: Decoder, line: Seq<u8>, r: Result<Seq<u8>, CodecError>) -> bool {
    &&& r is Ok
    &&& r->Ok_0 == verbatim(line)
    &&& post.pending == pre.pending - 1
    &&& post.phase == (if pre.pending == 1 { Phase::Epoch } else { Phase::Event })
    &&& post.epoch == pre.epoch
    &&& post.clock == pre.clock
    &&& post.registry == pre.registry
    &&& same_layout(pre, post)
    &&& post.desc == pre.desc
    &&& post.numsat == pre.numsat
    &&& post.sat_index == pre.sat_index
}

/// An epoch line: the description is re-initialized or recovered, then its
/// flag and count are read. An event publishes the description at once and
/// announces its special records; any other epoch waits for its clock line.
pub open spec fn epoch_step(pre: Decoder, post: Decoder, line: Seq<u8>, r: Result<Seq<u8>, CodecError>) -> bool {
    let desc = recovered_desc(pre, line);
    let flag = flag_of(desc, pre.v3);
    let n = count_of(desc, pre.v3);
    if is_epoch_init(line) && (line[0] == V3_EPOCH_INIT) != pre.modern_marker {
        r == Err::<Seq<u8>, CodecError>(CodecError::EpochMarkerMismatch)
    } else if !is_epoch_init(line) && pre.epoch is None {
        r == Err::<Seq<u8>, CodecError>(CodecError::UninitializedKernel)
    } else if flag is None || n is None {
        r == Err::<Seq<u8>, CodecError>(CodecError::MalformedEpochHeader)
    } else if flag->0 > 1 {
        &&& r is Ok
        &&& r->Ok_0 == epoch_text(desc.subrange(0, (count_offset(pre.v3) + 3) as int), pre.v3, None)
        &&& post.pending == n->0
        &&& post.phase == (if n->0 > 0 { Phase::Event } else { Phase::Epoch })
        &&& post.epoch is Some && post.epoch->0.line@ == desc
        &&& post.clock == pre.clock
        &&& post.registry == pre.registry
        &&& same_layout(pre, post)
        &&& post.desc == pre.desc
        &&& post.numsat == pre.numsat
        &&& post.sat_index == pre.sat_index
    } else if !desc_ready(desc, pre.v3, n->0) {
        r == Err::<Seq<u8>, CodecError>(CodecError::MalformedEpochHeader)
    } else {
        &&& r is Ok
        &&& r->Ok_0.len() == 0
        &&& post.phase == Phase::Clock
        &&& post.desc@ == cut_desc(desc, pre.v3, n->0)
        &&& post.numsat == n->0
        &&& post.epoch is Some && post.epoch->0.line@ == desc
        &&& post.clock == pre.clock
        &&& post.registry == pre.registry
        &&& same_layout(pre, post)
        &&& post.sat_index == pre.sat_index
        &&& post.pending == pre.pending
    }
}

/// The clock line: an absent, re-initialized or differenced offset; the
/// epoch line(s) are published with it.
pub open spec fn clock_step(pre: Decoder, post: Decoder, line: Seq<u8>, r: Result<Seq<u8>, CodecError>) -> bool {
    let o = field_outcome(pre.clock, trim_start(trim_end(line)));
    match o {
        Err(e) => r == Err::<Seq<u8>, CodecError>(e),
        Ok(v) => {
            &&& r is Ok
            &&& r->Ok_0 == epoch_text(pre.desc@, pre.v3, v)
            &&& post.phase == (if pre.numsat == 0 { Phase::Epoch } else { Phase::Observation })
            &&& post.sat_index == 0
            &&& post.desc == pre.desc
            &&& post.numsat == pre.numsat
            &&& post.epoch == pre.epoch
            &&& post.registry == pre.registry
            &&& field_next(pre.clock, trim_start(trim_end(line)), post.clock)
            &&& same_layout(pre, post)
            &&& post.pending == pre.pending
        },
    }
}

/// One satellite's observation line: each value token runs through that
/// satellite's kernel for its code, the rest through its flag kernel, and
/// the satellite's RINEX text is published.
pub open spec fn observation_step(pre: Decoder, post: Decoder, line: Seq<u8>, r: Result<Seq<u8>, CodecError>) -> bool {
    let sat = sat_at(pre.desc@, pre.v3, pre.sat_index as nat);
    let key = sat_key(sat);
    let tl = trim_end(line);
    match code_count(pre.codes@, system_of(sat, pre.system)) {
        None => r == Err::<Seq<u8>, CodecError>(CodecError::UnknownConstellation),
        Some(n) => {
            &&& r is Ok <==> (forall|j: int| 0 <= j < n ==> (#[trigger] kept_outcome(pre.registry, key, j, value_token(tl, j as nat))) is Ok)
            &&& r is Ok ==> {
                &&& exists|vals: Seq<Option<i64>>| {
                    &&& vals.len() == n
                    &&& forall|j: int| 0 <= j < n ==> kept_outcome(pre.registry, key, j, value_token(tl, j as nat)) == Ok::<Option<i64>, CodecError>(#[trigger] vals[j])
                    &&& r->Ok_0 == obs_text(sat, vals, overlay(pre.registry.flags_of(key), flags_token(tl, n as nat)), pre.v3)
                }
                &&& post.sat_index == pre.sat_index + 1
                &&& post.phase == (if pre.sat_index + 1 == pre.numsat { Phase::Epoch } else { Phase::Observation })
                &&& post.desc == pre.desc
                &&& post.numsat == pre.numsat
                &&& post.epoch == pre.epoch
                &&& post.clock == pre.clock
                &&& registry_after_obs(pre.registry, post.registry, key, tl, n as nat)
                &&& same_layout(pre, post)
                &&& post.pending == pre.pending
            }
        },
    }
}

/// `k` is the kernel that field `j` of satellite `key` starts from.
pub open spec fn kept_kernel(k: NumKernel, reg: Registry, key: u32, j: int) -> bool {
    if reg.has(key) && j < reg.entry_of(key).values@.len() {
        k == reg.entry_of(key).values@[j]
    } else {
        k.max_order == reg.max_order && k.levels@.len() == 0 && k.order == 0
    }
}

pub(crate) proof fn lemma_kept_next(k: NumKernel, reg: Registry, key: u32, j: int, token: Seq<u8>, post: NumKernel)
    requires
        kept_kernel(k, reg, key, j),
        field_next(k, token, post),
    ensures
        kept_next(reg, key, j, token, post),
{
    if !(reg.has(key) && j < reg.entry_of(key).values@.len()) {
        assert(k.history() =~= Seq::<int>::empty());
    }
}

pub(crate) proof fn lemma_kept_outcome(k: NumKernel, reg: Registry, key: u32, j: int, token: Seq<u8>)
    requires
        kept_kernel(k, reg, key, j),
    ensures
        field_outcome(k, token) == kept_outcome(reg, key, j, token),
{
    if !(reg.has(key) && j < reg.entry_of(key).values@.len()) {
        assert(k.history() =~= Seq::<int>::empty());
    }
}

/// One record line in any phase.
pub open spec fn line_step(pre: Decoder, post: Decoder, line: Seq<u8>, r: Result<Seq<u8>, CodecError>) -> bool {
    if pre.phase == Phase::Event {
        event_step(pre, post, line, r)
    } else if is_comment(line) {
        r == Ok::<Seq<u8>, CodecError>(verbatim(line)) && post == pre
    } else if pre.phase == Phase::Epoch {
        epoch_step(pre, post, line, r)
    } else if pre.phase == Phase::Clock {
        clock_step(pre, post, line, r)
    } else {
        observation_step(pre, post, line, r)
    }
}

/// A session just opened for `header`.
pub open spec fn is_fresh(d: Decoder, header: HeaderInfo, max_order: usize) -> bool {
    &&& d.wf()
    &&& d.phase == Phase::Epoch
    &&& d.epoch is None
    &&& !d.clock.is_seeded()
    &&& d.registry.entries@.len() == 0
    &&& d.registry.max_order == max_order
    &&& d.modern_marker == (header.crinex_version->0 >= 3)
    &&& d.v3 == (header.rinex_major >= 3)
    &&& d.system == (if header.system is Some { header.system->0 } else { SPACE })
    &&& d.codes@ == header.codes@
}

/// The concatenation of the outputs of successive lines.
pub open spec fn joined(outs: Seq<Seq<u8>>) -> Seq<u8>
    decreases outs.len(),
{
    if outs.len() == 0 {
        Seq::empty()
    } else {
        joined(outs.drop_last()) + outs.last()
    }
}


/// A re-initialization token `n&seed` recovers `seed`, whatever the kernel
/// held before, as long as `n` is within the session maximum.
pub proof fn law_reinit_reproduces_seed(k: NumKernel, token: Seq<u8>, order: usize, seed: i64)
    requires
        reinit_token(token) == Some((order, seed)),
        order <= k.max_order,
    ensures
        field_outcome(k, token) == Ok::<Option<i64>, CodecError>(Some(seed)),
{
}

/// A blank token recovers no value, and its field is published as sixteen
/// blanks (never as a zero).
pub proof fn law_blank_field(k: NumKernel, flags: Seq<u8>, i: int)
    ensures
        field_outcome(k, Seq::empty()) == Ok::<Option<i64>, CodecError>(None),
        obs_field_text(None, flags, i) == blanks(16),
{
}

/// An epoch with event flag 3 and two special records: the two lines that
/// follow come out unchanged, whatever they hold, no kernel is touched, and
/// the session then expects an epoch again.
pub proof fn law_event_pass_through(
    d0: Decoder,
    d1: Decoder,
    d2: Decoder,
    d3: Decoder,
    l0: Seq<u8>,
    l1: Seq<u8>,
    l2: Seq<u8>,
    r0: Result<Seq<u8>, CodecError>,
    r1: Result<Seq<u8>, CodecError>,
    r2: Result<Seq<u8>, CodecError>,
)
    requires
        d0.phase == Phase::Epoch,
        !is_comment(l0),
        r0 is Ok,
        flag_of(recovered_desc(d0, l0), d0.v3) == Some(3u8),
        count_of(recovered_desc(d0, l0), d0.v3) == Some(2nat),
        line_step(d0, d1, l0, r0),
        line_step(d1, d2, l1, r1),
        line_step(d2, d3, l2, r2),
    ensures
        r1 == Ok::<Seq<u8>, CodecError>(verbatim(l1)),
        r2 == Ok::<Seq<u8>, CodecError>(verbatim(l2)),
        d3.phase == Phase::Epoch,
        d3.clock == d0.clock,
        d3.registry == d0.registry,
        same_layout(d0, d3),
        d3.epoch == d1.epoch,
        d3.desc == d1.desc,
        d3.numsat == d1.numsat,
        d3.sat_index == d1.sat_index,
{
}

/// A blank observation token leaves the field's kernel as it was, so a
/// later token of that field is recovered as if the blank had not been
/// there.
pub proof fn law_blank_keeps_kernel(pre: Decoder, post: Decoder, line: Seq<u8>, out: Seq<u8>, j: int)
    requires
        pre.phase == Phase::Observation,
        !is_comment(line),
        line_step(pre, post, line, Ok::<Seq<u8>, CodecError>(out)),
        0 <= j,
        code_count(pre.codes@, system_of(sat_at(pre.desc@, pre.v3, pre.sat_index as nat), pre.system))
            matches Some(n) && j < n,
        value_token(trim_end(line), j as nat).len() == 0,
        ({
            let key = sat_key(sat_at(pre.desc@, pre.v3, pre.sat_index as nat));
            pre.registry.has(key) && j < pre.registry.entry_of(key).values@.len()
        }),
    ensures
        ({
            let key = sat_key(sat_at(pre.desc@, pre.v3, pre.sat_index as nat));
            let before = pre.registry.entry_of(key).values@[j];
            let after = post.registry.entry_of(key).values@[j];
            after.order == before.order && after.history() == before.history() && after.max_order
                == before.max_order
        }),
{
}

/// Once a field was re-initialized at order 0, an ordinary token is
/// recovered as itself and the kernel stays at order 0.
pub proof fn law_order_zero_field(k: NumKernel, token: Seq<u8>, post: NumKernel)
    requires
        k.wf(),
        k.order == 0,
        k.is_seeded(),
        token.len() > 0,
        reinit_token(token) is None,
        int_token(token) is Some,
        field_next(k, token, post),
    ensures
        field_outcome(k, token) == Ok::<Option<i64>, CodecError>(Some(int_token(token)->0)),
        post.order == 0,
        post.history() == seq![int_token(token)->0 as int],
{
    assert(k.history().len() == k.levels@.len());
    let z = recovered_levels(k.history(), int_token(token)->0 as int, 0);
    assert(z =~= seq![int_token(token)->0 as int]);
}

/// After an ordinary token, a field's kernel holds one more level, up to
/// its order plus one: the count `law_history_length` follows across a
/// stream.
pub proof fn law_field_history_length(k: NumKernel, token: Seq<u8>, post: NumKernel)
    requires
        k.wf(),
        k.is_seeded(),
        token.len() > 0,
        reinit_token(token) is None,
        field_next(k, token, post),
    ensures
        post.levels@.len() == crate::numdiff::next_length(k.levels@.len() as nat, k.order as nat),
{
    assert(k.history().len() == k.levels@.len());
    assert(post.history().len() == post.levels@.len());
}



/// Decoding session of one compact file, from the first epoch line on.
pub struct Decoder {
    /// Epoch lines re-initialize with `>` (CRINEX 3) rather than `&`.
    pub modern_marker: bool,
    /// Records use the RINEX 3 layout.
    pub v3: bool,
    pub system: u8,
    pub codes: Vec<SystemCodes>,
    pub phase: Phase,
    pub epoch: Option<TextKernel>,
    pub clock: NumKernel,
    pub registry: Registry,
    /// Recovered description of the pending epoch.
    pub desc: Vec<u8>,
    pub numsat: usize,
    /// Satellites of the pending epoch already published.
    pub sat_index: usize,
    /// Special records of the pending event epoch still to forward.
    pub pending: usize,
}

impl Decoder {
    pub open spec fn wf(&self) -> bool {
        &&& self.clock.wf()
        &&& self.registry.wf()
        &&& self.clock.max_order == self.registry.max_order
        &&& self.numsat <= 999
        &&& self.phase == Phase::Clock ==> desc_ready(self.desc@, self.v3, self.numsat as nat)
        &&& self.phase == Phase::Observation ==> desc_ready(self.desc@, self.v3, self.numsat as nat)
            && self.sat_index < self.numsat
        &&& self.phase == Phase::Event ==> self.pending > 0
    }

    /// Opens a session for a file with this header; numeric orders above
    /// `max_order` are refused.
    pub fn new(header: HeaderInfo, max_order: usize) -> (r: Result<Decoder, CodecError>)
        requires
            max_order < usize::MAX,
        ensures
            !header.observation ==> r == Err::<Decoder, CodecError>(CodecError::UnsupportedRecordType),
            header.observation && header.crinex_version is None ==> r == Err::<Decoder, CodecError>(
                CodecError::NotCompactRinex,
            ),
            header.observation && header.crinex_version is Some ==> r is Ok && is_fresh(
                r->Ok_0,
                header,
                max_order,
            ),
    {
        if !header.observation {
            return Err(CodecError::UnsupportedRecordType);
        }
        let crinex = match header.crinex_version {
            Some(v) => v,
            None => return Err(CodecError::NotCompactRinex),
        };
        Ok(Decoder {
            modern_marker: crinex >= 3,
            v3: header.rinex_major >= 3,
            system: match header.system {
                Some(c) => c,
                None => SPACE,
            },
            codes: header.codes,
            phase: Phase::Epoch,
            epoch: None,
            clock: NumKernel::new(max_order),
            registry: Registry::new(max_order),
            desc: Vec::new(),
            numsat: 0,
            sat_index: 0,
            pending: 0,
        })
    }


    /// Forwards one special record of an event epoch.
    fn step_event(&mut self, line: &[u8]) -> (r: Result<Vec<u8>, CodecError>)
        requires
            old(self).wf(),
            old(self).phase == Phase::Event,
        ensures
            final(self).wf(),
            event_step(*old(self), *final(self), line@, text_of(r)),
    {
        let mut out: Vec<u8> = Vec::new();
        push_range(&mut out, line, 0, line.len());
        out.push(NEWLINE);
        assert(line@.subrange(0, line@.len() as int) =~= line@);
        self.pending = self.pending - 1;
        if self.pending == 0 {
            self.phase = Phase::Epoch;
        }
        Ok(out)
    }

    /// Reads an epoch line.
    fn step_epoch(&mut self, line: &[u8]) -> (r: Result<Vec<u8>, CodecError>)
        requires
            old(self).wf(),
            old(self).phase == Phase::Epoch,
        ensures
            r is Ok ==> final(self).wf(),
            epoch_step(*old(self), *final(self), line@, text_of(r)),
    {
        let token: Vec<u8> = if line.len() == 0 {
            Vec::new()
        } else {
            trimmed_end_from(line, 1)
        };
        assert(token@ == epoch_token(line@));
        let init = line.len() > 0 && (line[0] == V1_EPOCH_INIT || line[0] == V3_EPOCH_INIT);
        let desc: Vec<u8> = if init {
            if (line[0] == V3_EPOCH_INIT) != self.modern_marker {
                return Err(CodecError::EpochMarkerMismatch);
            }
            self.epoch = Some(TextKernel::new(token.clone()));
            token
        } else {
            match &mut self.epoch {
                None => {
                    return Err(CodecError::UninitializedKernel);
                },
                Some(k) => k.decode(token.as_slice()),
            }
        };
        assert(desc@ == recovered_desc(*old(self), line@));
        let v3 = self.v3;
        let flag = match epoch_flag(desc.as_slice(), v3) {
            Some(f) => f,
            None => {
                return Err(CodecError::MalformedEpochHeader);
            },
        };
        let n = match epoch_count(desc.as_slice(), v3) {
            Some(n) => n,
            None => {
                return Err(CodecError::MalformedEpochHeader);
            },
        };
        if flag > 1 {
            let end = crate::epoch::count_column(v3) + 3;
            let mut head: Vec<u8> = Vec::new();
            push_range(&mut head, desc.as_slice(), 0, end);
            let out = format_epoch(head.as_slice(), v3, None);
            self.pending = n;
            self.phase = if n > 0 {
                Phase::Event
            } else {
                Phase::Epoch
            };
            return Ok(out);
        }
        let start = sat_column(v3);
        let end = start + 3 * n;
        if n > 0 && desc.len() < end {
            return Err(CodecError::MalformedEpochHeader);
        }
        let kept: Vec<u8> = if desc.len() > end {
            let mut c: Vec<u8> = Vec::new();
            push_range(&mut c, desc.as_slice(), 0, end);
            c
        } else {
            desc
        };
        self.desc = kept;
        self.numsat = n;
        self.phase = Phase::Clock;
        Ok(Vec::new())
    }

    /// Reads the clock line of the pending epoch and publishes the epoch line(s).
    fn step_clock(&mut self, line: &[u8]) -> (r: Result<Vec<u8>, CodecError>)
        requires
            old(self).wf(),
            old(self).phase == Phase::Clock,
        ensures
            r is Ok ==> final(self).wf(),
            clock_step(*old(self), *final(self), line@, text_of(r)),
    {
        let token = trimmed(line);
        let value = match decode_field(&mut self.clock, token.as_slice()) {
            Ok(v) => v,
            Err(e) => {
                return Err(e);
            },
        };
        let out = format_epoch(self.desc.as_slice(), self.v3, value);
        self.sat_index = 0;
        self.phase = if self.numsat == 0 {
            Phase::Epoch
        } else {
            Phase::Observation
        };
        Ok(out)
    }


    /// Reads the observation line of the next satellite of the pending epoch.
    fn step_observation(&mut self, line: &[u8]) -> (r: Result<Vec<u8>, CodecError>)
        requires
            old(self).wf(),
            old(self).phase == Phase::Observation,
        ensures
            r is Ok ==> final(self).wf(),
            observation_step(*old(self), *final(self), line@, text_of(r)),
    {
        let v3 = self.v3;
        let start = sat_column(v3) + 3 * self.sat_index;
        let mut sat: Vec<u8> = Vec::new();
        push_range(&mut sat, self.desc.as_slice(), start, start + 3);
        assert(sat@ == sat_at(self.desc@, v3, self.sat_index as nat));
        let letter = if sat[0] == SPACE {
            self.system
        } else {
            sat[0]
        };
        let n = match codes_for(&self.codes, letter) {
            Some(n) => n,
            None => {
                return Err(CodecError::UnknownConstellation);
            },
        };
        let key = satellite_key(sat.as_slice());
        assert(code_count(old(self).codes@, system_of(sat@, old(self).system)) == Some(n));
        let ghost reg0 = self.registry;
        let max = self.registry.max_order;
        let mut entry = self.registry.take(key);
        let ghost flags0 = entry.flags.line@;
        let ghost mid = *self;
        let ghost kc = kept_count(reg0, key);
        assert(entry.values@.len() == kc);
        assert forall|j: int| 0 <= j < entry.values@.len() implies kept_kernel(
            #[trigger] entry.values@[j],
            reg0,
            key,
            j,
        ) by {}
        while entry.values.len() < n
            invariant
                entry.wf(max),
                entry.key == key,
                entry.flags.line@ == flags0,
                max == reg0.max_order,
                max < usize::MAX,
                *self == mid,
                reg0 == old(self).registry,
                v3 == old(self).v3,
                sat@ == sat_at(old(self).desc@, v3, old(self).sat_index as nat),
                key == sat_key(sat@),
                code_count(old(self).codes@, system_of(sat@, old(self).system)) == Some(n),
                reg0.has(key) ==> entry.values@.len() >= reg0.entry_of(key).values@.len(),
                kc == kept_count(reg0, key),
                entry.values@.len() >= kc,
                entry.values@.len() > kc ==> entry.values@.len() <= n,
                forall|j: int| 0 <= j < entry.values@.len() ==> kept_kernel(#[trigger] entry.values@[j], reg0, key, j),
            decreases n - entry.values@.len(),
        {
            let fresh = NumKernel::new(max);
            entry.values.push(fresh);
        }
        let tl = trimmed_end_from(line, 0);
        assert(line@.subrange(0, line@.len() as int) =~= line@);
        let mut pos: usize = 0;
        let mut vals: Vec<Option<i64>> = Vec::new();
        let mut i: usize = 0;
        while i < n
            invariant
                entry.wf(max),
                entry.key == key,
                entry.flags.line@ == flags0,
                entry.values@.len() >= n,
                max == reg0.max_order,
                max < usize::MAX,
                *self == mid,
                reg0 == old(self).registry,
                v3 == old(self).v3,
                sat@ == sat_at(old(self).desc@, v3, old(self).sat_index as nat),
                key == sat_key(sat@),
                code_count(old(self).codes@, system_of(sat@, old(self).system)) == Some(n),
                tl@ == trim_end(line@),
                i <= n,
                pos <= tl@.len(),
                pos as int == token_pos(tl@, i as nat),
                vals@.len() == i,
                forall|j: int| 0 <= j < i ==> kept_outcome(reg0, key, j, value_token(tl@, j as nat)) == Ok::<Option<i64>, CodecError>(#[trigger] vals@[j]),
                forall|j: int| i <= j < entry.values@.len() ==> kept_kernel(#[trigger] entry.values@[j], reg0, key, j),
                kc == kept_count(reg0, key),
                entry.values@.len() == (if kc < n { n as nat } else { kc }),
                forall|j: int| 0 <= j < i ==> kept_next(reg0, key, j, value_token(tl@, j as nat), #[trigger] entry.values@[j]),
            decreases n - i,
        {
            let (tok, next) = next_token(tl.as_slice(), pos);
            let mut k = NumKernel::new(max);
            entry.values.set_and_swap(i, &mut k);
            proof {
                lemma_kept_outcome(k, reg0, key, i as int, tok@);
            }
            let ghost k_old = k;
            let res = decode_field(&mut k, tok.as_slice());
            proof {
                if res.is_ok() {
                    lemma_kept_next(k_old, reg0, key, i as int, tok@, k);
                }
            }
            entry.values.set(i, k);
            match res {
                Ok(v) => {
                    vals.push(v);
                },
                Err(e) => {
                    assert(tok@ == value_token(tl@, i as nat));
                    assert(!(kept_outcome(reg0, key, i as int, value_token(tl@, i as nat)) is Ok));
                    proof {
                        let pre = *old(self);
                        assert(sat_at(pre.desc@, pre.v3, pre.sat_index as nat) == sat@);
                        assert(code_count(pre.codes@, system_of(sat@, pre.system)) == Some(n));
                        let ii: int = i as int;
                        assert(value_token(tl@, ii as nat) == value_token(tl@, i as nat));
                        assert(!(kept_outcome(pre.registry, key, ii, value_token(tl@, ii as nat)) is Ok));
                        assert(!(forall|j: int| 0 <= j < n ==> (#[trigger] kept_outcome(pre.registry, key, j, value_token(tl@, j as nat))) is Ok));
                    }
                    return Err(e);
                },
            }
            pos = next;
            i += 1;
        }
        let ft: Vec<u8> = if pos < tl.len() {
            tail_of(tl.as_slice(), pos)
        } else {
            Vec::new()
        };
        assert(ft@ == flags_token(tl@, n as nat));
        let flags = entry.flags.decode(ft.as_slice());
        let out = format_obs(sat.as_slice(), &vals, flags.as_slice(), v3);
        assert(tl@ == trim_end(line@));
        assert(reg0.flags_of(key) == flags0);
        assert(out@ == obs_text(sat@, vals@, overlay(reg0.flags_of(key), flags_token(tl@, n as nat)), v3));
        let ghost placed = entry;
        self.registry.put(entry);
        proof {
            let post = self.registry;
            assert(post.entry_of(key) == placed);
            assert forall|k: u32| k != key implies (reg0.has(k) <==> post.has(k)) && (reg0.has(k) ==> post.entry_of(k)
                == #[trigger] reg0.entry_of(k)) by {
                assert(reg0.others_kept(mid.registry, key));
                assert(mid.registry.others_kept(post, key));
                if reg0.has(k) {
                    assert(mid.registry.entry_of(k) == reg0.entry_of(k));
                    assert(post.entry_of(k) == mid.registry.entry_of(k));
                }
            }
            assert(registry_after_obs(reg0, post, key, tl@, n as nat));
        }
        self.sat_index = self.sat_index + 1;
        if self.sat_index == self.numsat {
            self.phase = Phase::Epoch;
        }
        proof {
            let pre = *old(self);
            assert(sat_at(pre.desc@, pre.v3, pre.sat_index as nat) == sat@);
            assert(code_count(pre.codes@, system_of(sat@, pre.system)) == Some(n));
            assert(forall|j: int| 0 <= j < n ==> (#[trigger] kept_outcome(pre.registry, key, j, value_token(tl@, j as nat))) is Ok) by {
                assert forall|j: int| 0 <= j < n implies (#[trigger] kept_outcome(pre.registry, key, j, value_token(tl@, j as nat))) is Ok by {
                    assert(kept_outcome(reg0, key, j, value_token(tl@, j as nat)) == Ok::<Option<i64>, CodecError>(vals@[j]));
                }
            }
            let w = vals@;
            assert(w.len() == n);
            assert(forall|j: int| 0 <= j < n ==> kept_outcome(pre.registry, key, j, value_token(tl@, j as nat)) == Ok::<Option<i64>, CodecError>(#[trigger] w[j]));
            assert(out@ == obs_text(sat@, w, overlay(pre.registry.flags_of(key), flags_token(tl@, n as nat)), pre.v3));
        }
        Ok(out)
    }


    /// Decodes one record line and returns the RINEX text it completes,
    /// possibly none (each published line ends in a newline).
    pub fn decode_line(&mut self, line: &[u8]) -> (r: Result<Vec<u8>, CodecError>)
        requires
            old(self).wf(),
        ensures
            r is Ok ==> final(self).wf(),
            line_step(*old(self), *final(self), line@, text_of(r)),
    {
        if self.phase == Phase::Event {
            return self.step_event(line);
        }
        if comment_line(line) {
            let mut out: Vec<u8> = Vec::new();
            push_range(&mut out, line, 0, line.len());
            out.push(NEWLINE);
            assert(line@.subrange(0, line@.len() as int) =~= line@);
            return Ok(out);
        }
        match self.phase {
            Phase::Epoch => self.step_epoch(line),
            Phase::Clock => self.step_clock(line),
            _ => self.step_observation(line),
        }
    }

    /// Ends the session: the stream must not stop inside an epoch.
    pub fn finish(&self) -> (r: Result<(), CodecError>)
        ensures
            self.phase == Phase::Epoch ==> r == Ok::<(), CodecError>(()),
            self.phase != Phase::Epoch ==> r == Err::<(), CodecError>(CodecError::TruncatedStream),
    {
        if self.phase == Phase::Epoch {
            Ok(())
        } else {
            Err(CodecError::TruncatedStream)
        }
    }
}

/// Opens a decoding session from the header lines of a compact file. The
/// lines the codec reads are handed to the outside header parser; whatever
/// header it reads, the session is opened as `Decoder::new` states for it,
/// and without a CRINEX version line no session opens.
pub fn open_session(header_lines: &Vec<Vec<u8>>, max_order: usize) -> (r: Result<Decoder, CodecError>)
    requires
        max_order < usize::MAX,
    ensures
        r is Ok ==> exists|h: HeaderInfo|
            h.observation && h.crinex_version is Some && #[trigger] is_fresh(r->Ok_0, h, max_order),
        r is Err ==> r->Err_0 == CodecError::MalformedHeader || r->Err_0
            == CodecError::UnsupportedRecordType || r->Err_0 == CodecError::NotCompactRinex,
        (forall|i: int| 0 <= i < header_lines@.len() ==> line_label(#[trigger] header_lines@[i]@)
            != codec_labels()[0]) ==> r is Err,
{
    let kept = codec_header_lines(header_lines);
    match parse_header(&kept) {
        Err(_) => Err(CodecError::MalformedHeader),
        Ok(h) => {
            let ghost hh = h;
            let r = Decoder::new(h, max_order);
            proof {
                if r is Ok {
                    assert(is_fresh(r->Ok_0, hh, max_order));
                }
            }
            r
        },
    }
}

/// A trace of `i` steps extended by one more step.
proof fn lemma_trace_extend(
    states: Seq<Decoder>,
    outs: Seq<Seq<u8>>,
    lines: Seq<Vec<u8>>,
    i: int,
    pre: Decoder,
    post: Decoder,
    text: Seq<u8>,
)
    requires
        0 <= i < lines.len(),
        states.len() == i + 1,
        outs.len() == i,
        states.last() == pre,
        forall|k: int|
            0 <= k < i ==> line_step(
                #[trigger] states[k],
                states[k + 1],
                lines[k]@,
                Ok::<Seq<u8>, CodecError>(outs[k]),
            ),
        line_step(pre, post, lines[i]@, Ok::<Seq<u8>, CodecError>(text)),
    ensures
        joined(outs.push(text)) == joined(outs) + text,
        forall|k: int|
            0 <= k < i + 1 ==> line_step(
                #[trigger] states.push(post)[k],
                states.push(post)[k + 1],
                lines[k]@,
                Ok::<Seq<u8>, CodecError>(outs.push(text)[k]),
            ),
{
    assert(outs.push(text).drop_last() =~= outs);
    assert forall|k: int| 0 <= k < i + 1 implies line_step(
        #[trigger] states.push(post)[k],
        states.push(post)[k + 1],
        lines[k]@,
        Ok::<Seq<u8>, CodecError>(outs.push(text)[k]),
    ) by {
        if k < i {
            assert(states.push(post)[k] == states[k]);
            assert(states.push(post)[k + 1] == states[k + 1]);
            assert(outs.push(text)[k] == outs[k]);
        } else {
            assert(states.push(post)[k] == pre);
        }
    }
}

/// A run of the record lines `ls` from a fresh session for `header` that
/// succeeds line by line, ends between epochs and publishes `out`.
pub open spec fn decoded_run(header: HeaderInfo, max_order: usize, ls: Seq<Seq<u8>>, out: Seq<u8>) -> bool {
    exists|states: Seq<Decoder>, outs: Seq<Seq<u8>>|
        {
            &&& states.len() == ls.len() + 1
            &&& outs.len() == ls.len()
            &&& is_fresh(states[0], header, max_order)
            &&& forall|k: int|
                0 <= k < ls.len() ==> line_step(
                    #[trigger] states[k],
                    states[k + 1],
                    ls[k],
                    Ok::<Seq<u8>, CodecError>(outs[k]),
                )
            &&& states.last().phase == Phase::Epoch
            &&& out == joined(outs)
        }
}

/// Index of the first line at or after `i` that ends a header.
pub open spec fn header_end_from(ls: Seq<Seq<u8>>, i: int) -> Option<int>
    decreases ls.len() - i,
{
    if i < 0 || i >= ls.len() {
        None
    } else if contains(ls[i], end_of_header_label()) {
        Some(i)
    } else {
        header_end_from(ls, i + 1)
    }
}

/// The published header: every line but the two CRINEX ones, each followed
/// by a newline.
pub open spec fn header_text(ls: Seq<Seq<u8>>) -> Seq<u8>
    decreases ls.len(),
{
    if ls.len() == 0 {
        Seq::empty()
    } else {
        let l = ls.last();
        header_text(ls.drop_last()) + if !contains(l, crinex_version_label()) && !contains(
            l,
            crinex_program_label(),
        ) {
            l.push(NEWLINE)
        } else {
            Seq::empty()
        }
    }
}

/// A run that stops with `e`: the first `k` lines step successfully from a
/// fresh session, then line `k` fails with `e`, or (every line having
/// stepped) the stream ends inside an epoch and `e` is `TruncatedStream`.
pub open spec fn failed_run(
    header: HeaderInfo,
    max_order: usize,
    lines: Seq<Vec<u8>>,
    states: Seq<Decoder>,
    outs: Seq<Seq<u8>>,
    k: int,
    post: Decoder,
    e: CodecError,
) -> bool {
    &&& 0 <= k <= lines.len()
    &&& states.len() == k + 1
    &&& outs.len() == k
    &&& is_fresh(states[0], header, max_order)
    &&& forall|i: int|
        0 <= i < k ==> line_step(
            #[trigger] states[i],
            states[i + 1],
            lines[i]@,
            Ok::<Seq<u8>, CodecError>(outs[i]),
        )
    &&& if k < lines.len() {
        line_step(states[k], post, lines[k]@, Err::<Seq<u8>, CodecError>(e))
    } else {
        states[k].phase != Phase::Epoch && e == CodecError::TruncatedStream
    }
}

/// Decodes the record lines of a compact file (everything after its
/// header) and returns the RINEX records: the session runs every line in
/// turn, and the stream must end between epochs.
pub fn decode_records(header: HeaderInfo, max_order: usize, lines: &Vec<Vec<u8>>) -> (r: Result<
    Vec<u8>,
    CodecError,
>)
    requires
        max_order < usize::MAX,
    ensures
        !header.observation ==> r == Err::<Vec<u8>, CodecError>(CodecError::UnsupportedRecordType),
        header.observation && header.crinex_version is None ==> r == Err::<Vec<u8>, CodecError>(
            CodecError::NotCompactRinex,
        ),
        r is Ok ==> exists|states: Seq<Decoder>, outs: Seq<Seq<u8>>|
            {
                &&& states.len() == lines@.len() + 1
                &&& outs.len() == lines@.len()
                &&& is_fresh(states[0], header, max_order)
                &&& forall|k: int|
                    0 <= k < lines@.len() ==> line_step(
                        #[trigger] states[k],
                        states[k + 1],
                        lines@[k]@,
                        Ok::<Seq<u8>, CodecError>(outs[k]),
                    )
                &&& states.last().phase == Phase::Epoch
                &&& r->Ok_0@ == joined(outs)
            },
        r is Ok ==> decoded_run(header, max_order, views(lines@), r->Ok_0@),
        header.observation && header.crinex_version is Some && r is Err ==> exists|
            states: Seq<Decoder>,
            outs: Seq<Seq<u8>>,
            k: int,
            post: Decoder,
        |
            #[trigger] failed_run(header, max_order, lines@, states, outs, k, post, r->Err_0),
{
    let ghost h = header;
    let mut d = match Decoder::new(header, max_order) {
        Ok(d) => d,
        Err(e) => {
            return Err(e);
        },
    };
    let ghost mut states: Seq<Decoder> = seq![d];
    let ghost mut outs: Seq<Seq<u8>> = Seq::empty();
    let mut out: Vec<u8> = Vec::new();
    let mut i: usize = 0;
    while i < lines.len()
        invariant
            d.wf(),
            i <= lines@.len(),
            states.len() == i + 1,
            outs.len() == i,
            is_fresh(states[0], h, max_order),
            h == header,
            h.observation,
            h.crinex_version is Some,
            forall|k: int|
                0 <= k < i ==> line_step(
                    #[trigger] states[k],
                    states[k + 1],
                    lines@[k]@,
                    Ok::<Seq<u8>, CodecError>(outs[k]),
                ),
            states.last() == d,
            out@ == joined(outs),
        decreases lines@.len() - i,
    {
        let ghost pre = d;
        let text = match d.decode_line(lines[i].as_slice()) {
            Ok(t) => t,
            Err(e) => {
                proof {
                    assert(line_step(states[i as int], d, lines@[i as int]@, Err::<Seq<u8>, CodecError>(e)));
                    assert(failed_run(h, max_order, lines@, states, outs, i as int, d, e));
                }
                return Err(e);
            },
        };
        push_all(&mut out, &text);
        proof {
            lemma_trace_extend(states, outs, lines@, i as int, pre, d, text@);
            states = states.push(d);
            outs = outs.push(text@);
        }
        i += 1;
    }
    match d.finish() {
        Ok(()) => {},
        Err(e) => {
            proof {
                assert(states[lines@.len() as int] == d);
                assert(failed_run(h, max_order, lines@, states, outs, lines@.len() as int, d, e));
                assert(h == header);
                let res = Err::<Vec<u8>, CodecError>(e);
                assert(failed_run(header, max_order, lines@, states, outs, lines@.len() as int, d, res->Err_0));
            }
            return Err(e);
        },
    }
    Ok(out)
}

/// Decodes a whole compact file, header included: the header lines are
/// published without the two CRINEX lines, the lines the codec reads open
/// the session, and the record lines that follow are decoded.
pub fn decode_file(lines: &Vec<Vec<u8>>, max_order: usize) -> (r: Result<Vec<u8>, CodecError>)
    requires
        max_order < usize::MAX,
    ensures
        header_end_from(views(lines@), 0) is None ==> r == Err::<Vec<u8>, CodecError>(
            CodecError::MalformedHeader,
        ),
        header_end_from(views(lines@), 0) is Some ==> ({
            let e = header_end_from(views(lines@), 0)->0;
            let head = views(lines@).subrange(0, e + 1);
            let rest = views(lines@).subrange(e + 1, lines@.len() as int);
            &&& r is Ok ==> exists|h: HeaderInfo, body: Seq<u8>|
                {
                    &&& h.observation
                    &&& h.crinex_version is Some
                    &&& r->Ok_0@ == header_text(head) + body
                    &&& #[trigger] decoded_run(h, max_order, rest, body)
                }
            &&& (forall|i: int| 0 <= i < head.len() ==> line_label(#[trigger] head[i]) != codec_labels()[0])
                ==> r is Err
        }),
{
    let ghost all = views(lines@);
    let n = lines.len();
    let mut e: usize = 0;
    while e < n && !is_end_of_header(lines[e].as_slice())
        invariant
            e <= n,
            n == lines@.len(),
            all == views(lines@),
            header_end_from(all, 0) == header_end_from(all, e as int),
        decreases n - e,
    {
        e += 1;
    }
    if e == n {
        return Err(CodecError::MalformedHeader);
    }
    assert(header_end_from(all, 0) == Some(e as int));
    let mut out: Vec<u8> = Vec::new();
    let mut head: Vec<Vec<u8>> = Vec::new();
    let mut i: usize = 0;
    while i <= e
        invariant
            i <= e + 1,
            e < n,
            n == lines@.len(),
            all == views(lines@),
            views(head@) == all.subrange(0, i as int),
            header_end_from(all, 0) == Some(e as int),
            out@ == header_text(all.subrange(0, i as int)),
        decreases e + 1 - i,
    {
        let line = lines[i].clone();
        assert(line@ =~= all[i as int]);
        assert(all.subrange(0, i + 1).drop_last() =~= all.subrange(0, i as int));
        if keep_header_line(line.as_slice()) {
            push_all(&mut out, &line);
            out.push(NEWLINE);
        }
        head.push(line);
        assert(views(head@) =~= all.subrange(0, i + 1));
        i += 1;
    }
    let ghost hd = all.subrange(0, e + 1);
    let kept = codec_header_lines(&head);
    let h = match parse_header(&kept) {
        Err(_) => {
            return Err(CodecError::MalformedHeader);
        },
        Ok(h) => h,
    };
    let ghost hh = h;
    let mut rest: Vec<Vec<u8>> = Vec::new();
    let mut j: usize = e + 1;
    while j < n
        invariant
            e < j <= n,
            n == lines@.len(),
            all == views(lines@),
            views(rest@) == all.subrange(e + 1, j as int),
            header_end_from(all, 0) == Some(e as int),
        decreases n - j,
    {
        let line = lines[j].clone();
        assert(line@ =~= all[j as int]);
        let ghost before = rest@;
        rest.push(line);
        assert(rest@ == before.push(line));
        assert(views(rest@) =~= views(before).push(line@));
        assert(all.subrange(e + 1, j + 1) =~= all.subrange(e + 1, j as int).push(all[j as int]));
        assert(views(rest@) =~= all.subrange(e + 1, j + 1));
        j += 1;
    }
    let body = match decode_records(h, max_order, &rest) {
        Ok(b) => b,
        Err(err) => {
            return Err(err);
        },
    };
    let ghost prefix = out@;
    push_all(&mut out, &body);
    proof {
        assert(views(head@) == hd);
        assert(hh.observation && hh.crinex_version is Some);
        assert(views(rest@) == all.subrange(e + 1, n as int));
        assert(decoded_run(hh, max_order, all.subrange(e + 1, n as int), body@));
        assert(out@ == header_text(hd) + body@);
        if forall|i: int| 0 <= i < hd.len() ==> line_label(#[trigger] hd[i]) != codec_labels()[0] {
            assert forall|i: int| 0 <= i < head@.len() implies line_label(#[trigger] head@[i]@) != codec_labels()[0] by {
                assert(head@[i]@ == views(head@)[i]);
                assert(line_label(hd[i]) != codec_labels()[0]);
            }
            assert(hh.crinex_version is None);
            assert(false);
        }
        let ee = header_end_from(views(lines@), 0)->0;
        assert(ee == e);
        let rest_s = views(lines@).subrange(ee + 1, lines@.len() as int);
        assert(rest_s == all.subrange(e + 1, n as int));
        assert(decoded_run(hh, max_order, rest_s, body@));
        assert(out@ == header_text(views(lines@).subrange(0, ee + 1)) + body@);
    }
    Ok(out)
}

} // verus!
