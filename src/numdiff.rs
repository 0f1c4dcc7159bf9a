//! Numeric differencing kernel: order-n finite differences over exact integers.
use vstd::prelude::*;

use crate::error::CodecError;

verus! {

/// Whether an integer is representable as `i64`.
pub open spec fn fits_i64(x: int) -> bool {
    i64::MIN <= x <= i64::MAX
}

/// Whether every entry of a sequence is representable as `i64`.
pub open spec fn all_fit(s: Seq<int>) -> bool {
    forall|j: int| 0 <= j < s.len() ==> fits_i64(#[trigger] s[j])
}

/// The order used by the next step of a kernel holding `len` levels and
/// configured for `order`: it ramps up by one per step until it reaches `order`.
pub open spec fn next_top(len: nat, order: nat) -> nat {
    if len < order {
        len
    } else {
        order
    }
}

/// Number of levels held after one more step.
pub open spec fn next_length(len: nat, order: nat) -> nat {
    next_top(len, order) + 1
}

/// Number of levels held after `k` steps without re-initialization.
pub open spec fn length_after(len: nat, order: nat, k: nat) -> nat
    decreases k,
{
    if k == 0 {
        len
    } else {
        next_length(length_after(len, order, (k - 1) as nat), order)
    }
}

/// Level `j` recovered from the highest-order difference `delta`: each level
/// is the stored level below plus the newly recovered level above it.
pub open spec fn integrate(y: Seq<int>, delta: int, j: int, top: int) -> int
    decreases top - j,
{
    if j >= top {
        delta
    } else {
        y[j] + integrate(y, delta, j + 1, top)
    }
}

/// The levels a decoder holds after recovering from `delta` at order `top`;
/// level 0 is the recovered value.
pub open spec fn recovered_levels(y: Seq<int>, delta: int, top: int) -> Seq<int> {
    Seq::new((top + 1) as nat, |j: int| integrate(y, delta, j, top))
}

/// The `j`-th backward difference of the new value `v` against the stored levels.
pub open spec fn difference(y: Seq<int>, v: int, j: int) -> int
    decreases j,
{
    if j <= 0 {
        v
    } else {
        difference(y, v, j - 1) - y[j - 1]
    }
}

/// The levels an encoder holds after taking value `v` at order `top`; the
/// last one is the emitted token.
pub open spec fn differenced_levels(y: Seq<int>, v: int, top: int) -> Seq<int> {
    Seq::new((top + 1) as nat, |j: int| difference(y, v, j))
}

/// The state of one numeric field: its configured order and the stored
/// difference levels (level 0 is the last value). No level means the kernel
/// was never seeded.
pub struct NumKernel {
    pub max_order: usize,
    pub order: usize,
    pub levels: Vec<i64>,
}

impl NumKernel {
    pub open spec fn wf(&self) -> bool {
        &&& self.order <= self.max_order
        &&& self.max_order < usize::MAX
        &&& self.levels.len() <= self.order + 1
    }

    /// The stored levels as integers.
    pub open spec fn history(&self) -> Seq<int> {
        self.levels@.map_values(|x: i64| x as int)
    }

    pub open spec fn is_seeded(&self) -> bool {
        self.levels.len() > 0
    }

    /// The order of the next step.
    pub open spec fn top(&self) -> nat {
        next_top(self.levels.len() as nat, self.order as nat)
    }

    /// A kernel that accepts orders up to `max_order` and holds no history.
    pub fn new(max_order: usize) -> (r: NumKernel)
        requires
            max_order < usize::MAX,
        ensures
            r.wf(),
            r.max_order == max_order,
            r.order == 0,
            !r.is_seeded(),
    {
        NumKernel { max_order, order: 0, levels: Vec::new() }
    }

    /// Resets the history to the single absolute value `seed` at `order`.
    pub fn initialize(&mut self, order: usize, seed: i64) -> (r: Result<(), CodecError>)
        requires
            old(self).wf(),
        ensures
            final(self).wf(),
            final(self).max_order == old(self).max_order,
            order > old(self).max_order ==> r == Err::<(), CodecError>(CodecError::InvalidOrder)
                && *final(self) == *old(self),
            order <= old(self).max_order ==> r == Ok::<(), CodecError>(()) && final(self).order
                == order && final(self).history() == seq![seed as int],
    {
        if order > self.max_order {
            return Err(CodecError::InvalidOrder);
        }
        let mut levels: Vec<i64> = Vec::new();
        levels.push(seed);
        self.order = order;
        self.levels = levels;
        assert(self.history() =~= seq![seed as int]);
        Ok(())
    }

    /// Recovers the next absolute value from its `top`-th order difference
    /// and shifts the history.
    pub fn decode(&mut self, delta: i64) -> (r: Result<i64, CodecError>)
        requires
            old(self).wf(),
        ensures
            final(self).wf(),
            final(self).max_order == old(self).max_order,
            final(self).order == old(self).order,
            !old(self).is_seeded() ==> r == Err::<i64, CodecError>(CodecError::UninitializedKernel)
                && *final(self) == *old(self),
            old(self).is_seeded() ==> ({
                let z = recovered_levels(old(self).history(), delta as int, old(self).top() as int);
                if all_fit(z) {
                    &&& r == Ok::<i64, CodecError>(z[0] as i64)
                    &&& final(self).history() == z
                    &&& final(self).levels.len() == next_length(
                        old(self).levels.len() as nat,
                        old(self).order as nat,
                    )
                } else {
                    r == Err::<i64, CodecError>(CodecError::NumericOverflow) && *final(self)
                        == *old(self)
                }
            }),
            old(self).is_seeded() && old(self).order == 0 ==> r == Ok::<i64, CodecError>(delta),
    {
        let n = self.levels.len();
        if n == 0 {
            return Err(CodecError::UninitializedKernel);
        }
        let top: usize = if n < self.order {
            n
        } else {
            self.order
        };
        let ghost y = self.history();
        let ghost zs = recovered_levels(y, delta as int, top as int);
        let mut z: Vec<i64> = vec![0i64; top + 1];
        z.set(top, delta);
        let mut acc: i64 = delta;
        let mut j: usize = top;
        while j > 0
            invariant
                0 <= j <= top,
                top <= n,
                *self == *old(self),
                self.wf(),
                top as nat == self.top(),
                n == self.levels.len(),
                y == self.history(),
                zs == recovered_levels(y, delta as int, top as int),
                z.len() == top + 1,
                acc as int == integrate(y, delta as int, j as int, top as int),
                forall|k: int| j <= k <= top ==> (#[trigger] z@[k]) as int == zs[k],
            decreases j,
        {
            j -= 1;
            let yj = self.levels[j];
            assert(y[j as int] == yj as int);
            match acc.checked_add(yj) {
                None => {
                    assert(zs[j as int] == yj as int + acc as int);
                    assert(!fits_i64(zs[j as int]));
                    return Err(CodecError::NumericOverflow);
                },
                Some(s) => {
                    acc = s;
                    z.set(j, s);
                },
            }
        }
        assert forall|k: int| 0 <= k < zs.len() implies fits_i64(#[trigger] zs[k]) by {
            assert(z@[k] as int == zs[k]);
        }
        assert(z@.map_values(|x: i64| x as int) =~= zs);
        self.levels = z;
        Ok(acc)
    }

    /// Emits the `top`-th order difference of `value` against the history
    /// and shifts the history as a decoder does.
    pub fn encode(&mut self, value: i64) -> (r: Result<i64, CodecError>)
        requires
            old(self).wf(),
        ensures
            final(self).wf(),
            final(self).max_order == old(self).max_order,
            final(self).order == old(self).order,
            !old(self).is_seeded() ==> r == Err::<i64, CodecError>(CodecError::UninitializedKernel)
                && *final(self) == *old(self),
            old(self).is_seeded() ==> ({
                let z = differenced_levels(old(self).history(), value as int, old(self).top() as int);
                if all_fit(z) {
                    &&& r == Ok::<i64, CodecError>(z[old(self).top() as int] as i64)
                    &&& final(self).history() == z
                    &&& final(self).levels.len() == next_length(
                        old(self).levels.len() as nat,
                        old(self).order as nat,
                    )
                } else {
                    r == Err::<i64, CodecError>(CodecError::NumericOverflow) && *final(self)
                        == *old(self)
                }
            }),
            old(self).is_seeded() && old(self).order == 0 ==> r == Ok::<i64, CodecError>(value),
    {
        let n = self.levels.len();
        if n == 0 {
            return Err(CodecError::UninitializedKernel);
        }
        let top: usize = if n < self.order {
            n
        } else {
            self.order
        };
        let ghost y = self.history();
        let ghost zs = differenced_levels(y, value as int, top as int);
        let mut z: Vec<i64> = Vec::new();
        z.push(value);
        let mut acc: i64 = value;
        let mut j: usize = 0;
        while j < top
            invariant
                0 <= j <= top,
                top <= n,
                *self == *old(self),
                self.wf(),
                top as nat == self.top(),
                n == self.levels.len(),
                y == self.history(),
                zs == differenced_levels(y, value as int, top as int),
                z.len() == j + 1,
                acc as int == difference(y, value as int, j as int),
                forall|k: int| 0 <= k <= j ==> (#[trigger] z@[k]) as int == zs[k],
            decreases top - j,
        {
            let yj = self.levels[j];
            assert(y[j as int] == yj as int);
            match acc.checked_sub(yj) {
                None => {
                    assert(zs[j + 1] == acc as int - yj as int);
                    assert(!fits_i64(zs[j + 1]));
                    return Err(CodecError::NumericOverflow);
                },
                Some(s) => {
                    acc = s;
                    z.push(s);
                    j += 1;
                },
            }
        }
        assert forall|k: int| 0 <= k < zs.len() implies fits_i64(#[trigger] zs[k]) by {
            assert(z@[k] as int == zs[k]);
        }
        assert(z@.map_values(|x: i64| x as int) =~= zs);
        self.levels = z;
        Ok(acc)
    }
}

/// A kernel seeded with between one and `order + 1` levels holds exactly
/// `order + 1` levels after any `k >= order + 1` further steps.
pub proof fn law_history_length(len: nat, order: nat, k: nat)
    requires
        1 <= len <= order + 1,
        k >= order + 1,
    ensures
        length_after(len, order, k) == order + 1,
    decreases k,
{
    if k == order + 1 {
        lemma_length_ramp(len, order, k);
    } else {
        law_history_length(len, order, (k - 1) as nat);
    }
}

/// After `k` steps the length has grown by `k`, capped at `order + 1`.
proof fn lemma_length_ramp(len: nat, order: nat, k: nat)
    requires
        1 <= len <= order + 1,
    ensures
        length_after(len, order, k) == if len + k <= order + 1 {
            len + k
        } else {
            order + 1
        },
    decreases k,
{
    if k > 0 {
        lemma_length_ramp(len, order, (k - 1) as nat);
    }
}

/// Level `j` recovered from the token of an encoder equals that encoder's level `j`.
proof fn lemma_integrate_difference(y: Seq<int>, v: int, j: int, top: int)
    requires
        0 <= j <= top,
        top <= y.len(),
    ensures
        integrate(y, difference(y, v, top), j, top) == difference(y, v, j),
    decreases top - j,
{
    if j < top {
        lemma_integrate_difference(y, v, j + 1, top);
    }
}

/// Decoding the token that an encoder emitted for `v`, against the same
/// history at the same order, recovers every level the encoder now holds, so
/// the recovered value is `v` and both sides stay in step.
pub proof fn law_numeric_round_trip(y: Seq<int>, v: int, top: int)
    requires
        0 <= top <= y.len(),
    ensures
        recovered_levels(y, difference(y, v, top), top) == differenced_levels(y, v, top),
        recovered_levels(y, difference(y, v, top), top)[0] == v,
{
    assert forall|j: int| 0 <= j <= top implies #[trigger] integrate(y, difference(y, v, top), j, top)
        == difference(y, v, j) by {
        lemma_integrate_difference(y, v, j, top);
    }
    assert(recovered_levels(y, difference(y, v, top), top) =~= differenced_levels(y, v, top));
}

} // verus!
