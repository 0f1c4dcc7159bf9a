//! Per-satellite kernels of one session, created on first sight and kept
//! until the session ends.
use vstd::prelude::*;

use crate::numdiff::NumKernel;
use crate::textdiff::TextKernel;

verus! {

/// The kernels of one satellite: one numeric kernel per observation code,
/// and one text kernel over its loss-of-lock and signal-strength columns
/// (two columns per code; the overlay is column-wise, so each column evolves
/// on its own).
pub struct SatelliteKernels {
    pub key: u32,
    pub values: Vec<NumKernel>,
    pub flags: TextKernel,
}

impl SatelliteKernels {
    pub open spec fn wf(&self, max_order: usize) -> bool {
        forall|k: int|
            0 <= k < self.values@.len() ==> (#[trigger] self.values@[k]).wf()
                && self.values@[k].max_order == max_order
    }
}

/// A satellite identifier (three columns) as a registry key.
pub open spec fn sat_key(sat: Seq<u8>) -> u32 {
    (sat[0] as int * 65536 + sat[1] as int * 256 + sat[2] as int) as u32
}

pub fn satellite_key(sat: &[u8]) -> (r: u32)
    requires
        sat@.len() == 3,
    ensures
        r == sat_key(sat@),
{
    (sat[0] as u32) * 65536 + (sat[1] as u32) * 256 + (sat[2] as u32)
}

pub struct Registry {
    pub max_order: usize,
    pub entries: Vec<SatelliteKernels>,
}

impl Registry {
    pub open spec fn wf(&self) -> bool {
        &&& self.max_order < usize::MAX
        &&& forall|i: int|
            0 <= i < self.entries@.len() ==> (#[trigger] self.entries@[i]).wf(self.max_order)
        &&& forall|i: int, j: int|
            0 <= i < j < self.entries@.len() ==> (#[trigger] self.entries@[i]).key
                != (#[trigger] self.entries@[j]).key
    }

    pub open spec fn has(&self, key: u32) -> bool {
        exists|i: int| 0 <= i < self.entries@.len() && (#[trigger] self.entries@[i]).key == key
    }

    /// The kernels kept for `key` (meaningful when `has(key)`).
    pub open spec fn entry_of(&self, key: u32) -> SatelliteKernels {
        let i = choose|i: int| 0 <= i < self.entries@.len() && (#[trigger] self.entries@[i]).key == key;
        self.entries@[i]
    }

    /// The last flag columns recovered for `key`; blank for a new satellite.
    pub open spec fn flags_of(&self, key: u32) -> Seq<u8> {
        if self.has(key) {
            self.entry_of(key).flags.line@
        } else {
            Seq::empty()
        }
    }

    /// Every satellite but `key` is kept in `after` as it was in `self`.
    pub open spec fn others_kept(&self, after: Registry, key: u32) -> bool {
        forall|k: u32|
            k != key ==> (self.has(k) <==> after.has(k)) && (self.has(k) ==> after.entry_of(k)
                == #[trigger] self.entry_of(k))
    }

    pub fn new(max_order: usize) -> (r: Registry)
        requires
            max_order < usize::MAX,
        ensures
            r.wf(),
            r.max_order == max_order,
            r.entries@.len() == 0,
    {
        Registry { max_order, entries: Vec::new() }
    }

    /// Where the kernels of `key` are kept, if anywhere.
    pub fn find(&self, key: u32) -> (r: Option<usize>)
        ensures
            match r {
                Some(i) => i < self.entries@.len() && self.entries@[i as int].key == key,
                None => !self.has(key),
            },
    {
        let mut i: usize = 0;
        while i < self.entries.len()
            invariant
                i <= self.entries@.len(),
                forall|j: int| 0 <= j < i ==> (#[trigger] self.entries@[j]).key != key,
            decreases self.entries@.len() - i,
        {
            if self.entries[i].key == key {
                return Some(i);
            }
            i += 1;
        }
        None
    }

    /// Takes the kernels of `key` out of the registry; a satellite seen for
    /// the first time gets no value kernel and blank flags.
    pub fn take(&mut self, key: u32) -> (r: SatelliteKernels)
        requires
            old(self).wf(),
        ensures
            final(self).wf(),
            final(self).max_order == old(self).max_order,
            !final(self).has(key),
            r.key == key,
            r.wf(old(self).max_order),
            r.flags.line@ == old(self).flags_of(key),
            old(self).has(key) ==> r == old(self).entry_of(key),
            !old(self).has(key) ==> r.values@.len() == 0 && *final(self) == *old(self),
            forall|k: u32| k != key ==> (old(self).has(k) <==> final(self).has(k)),
            old(self).others_kept(*final(self), key),
    {
        match self.find(key) {
            None => {
                SatelliteKernels { key, values: Vec::new(), flags: TextKernel::new(Vec::new()) }
            },
            Some(i) => {
                let ghost old_entries = self.entries@;
                let e = self.entries.swap_remove(i);
                proof {
                    let ne = self.entries@;
                    assert(ne =~= old_entries.update(i as int, old_entries.last()).drop_last());
                    assert forall|a: int, b: int| 0 <= a < b < ne.len() implies (#[trigger] ne[a]).key
                        != (#[trigger] ne[b]).key by {
                        let ia = if a == i { old_entries.len() - 1 } else { a };
                        let ib = if b == i { old_entries.len() - 1 } else { b };
                        assert(ne[a] == old_entries[ia]);
                        assert(ne[b] == old_entries[ib]);
                        if ia < ib {
                            assert(old_entries[ia].key != old_entries[ib].key);
                        } else {
                            assert(old_entries[ib].key != old_entries[ia].key);
                        }
                    }
                    assert forall|a: int| 0 <= a < ne.len() implies (#[trigger] ne[a]).wf(
                        self.max_order,
                    ) by {
                        let ia = if a == i { old_entries.len() - 1 } else { a };
                        assert(ne[a] == old_entries[ia]);
                    }
                    assert(!self.has(key)) by {
                        if self.has(key) {
                            let a = choose|a: int| 0 <= a < ne.len() && (#[trigger] ne[a]).key == key;
                            let ia = if a == i { old_entries.len() - 1 } else { a };
                            assert(ne[a] == old_entries[ia]);
                            assert(ia != i);
                            if ia < i {
                                assert(old_entries[ia].key != old_entries[i as int].key);
                            } else {
                                assert(old_entries[i as int].key != old_entries[ia].key);
                            }
                        }
                    }
                    let ci = choose|c: int| 0 <= c < old_entries.len() && (#[trigger] old_entries[c]).key == key;
                    if ci != i {
                        if ci < i {
                            assert(old_entries[ci].key != old_entries[i as int].key);
                        } else {
                            assert(old_entries[i as int].key != old_entries[ci].key);
                        }
                    }
                    assert(old(self).entry_of(key) == e);
                    assert forall|k: u32| k != key && old(self).has(k) implies self.entry_of(k)
                        == #[trigger] old(self).entry_of(k) by {
                        let c = choose|c: int| 0 <= c < old_entries.len() && (#[trigger] old_entries[c]).key == k;
                        assert(c != i);
                        let nc = if c == old_entries.len() - 1 { i as int } else { c };
                        assert(ne[nc] == old_entries[c]);
                        lemma_entry_of_at(*self, nc);
                        lemma_entry_of_at(*old(self), c);
                    }
                    assert forall|k: u32| k != key implies (old(self).has(k) <==> self.has(k)) by {
                        if old(self).has(k) {
                            let c = choose|c: int| 0 <= c < old_entries.len() && (#[trigger] old_entries[c]).key == k;
                            assert(c != i);
                            if c == old_entries.len() - 1 {
                                assert(ne[i as int].key == k);
                            } else {
                                assert(ne[c].key == k);
                            }
                        }
                        if self.has(k) {
                            let a = choose|a: int| 0 <= a < ne.len() && (#[trigger] ne[a]).key == k;
                            let ia = if a == i { old_entries.len() - 1 } else { a };
                            assert(old_entries[ia].key == k);
                        }
                    }
                }
                e
            },
        }
    }

    /// Gives the kernels of a satellite back to the registry.
    pub fn put(&mut self, e: SatelliteKernels)
        requires
            old(self).wf(),
            !old(self).has(e.key),
            e.wf(old(self).max_order),
        ensures
            final(self).wf(),
            final(self).max_order == old(self).max_order,
            final(self).has(e.key),
            forall|k: u32| k != e.key ==> (old(self).has(k) <==> final(self).has(k)),
            final(self).entries@ == old(self).entries@.push(e),
            final(self).entry_of(e.key) == e,
            old(self).others_kept(*final(self), e.key),
    {
        let ghost key = e.key;
        let ghost n = self.entries@.len();
        self.entries.push(e);
        proof {
            assert(self.entries@[n as int].key == key);
            lemma_entry_of_at(*self, n as int);
            assert forall|k: u32| k != key && old(self).has(k) implies self.entry_of(k)
                == #[trigger] old(self).entry_of(k) by {
                let c = choose|c: int| 0 <= c < n && (#[trigger] old(self).entries@[c]).key == k;
                assert(self.entries@[c] == old(self).entries@[c]);
                lemma_entry_of_at(*self, c);
                lemma_entry_of_at(*old(self), c);
            }
            assert forall|k: u32| k != key implies (old(self).has(k) <==> self.has(k)) by {
                if old(self).has(k) {
                    let c = choose|c: int| 0 <= c < n && (#[trigger] old(self).entries@[c]).key == k;
                    assert(self.entries@[c].key == k);
                }
                if self.has(k) {
                    let a = choose|a: int| 0 <= a < n + 1 && (#[trigger] self.entries@[a]).key == k;
                    assert(a != n);
                    assert(old(self).entries@[a].key == k);
                }
            }
        }
    }
}

/// In a well-formed registry, an entry is the one kept for its key.
pub proof fn lemma_entry_of_at(reg: Registry, i: int)
    requires
        reg.wf(),
        0 <= i < reg.entries@.len(),
    ensures
        reg.has(reg.entries@[i].key),
        reg.entry_of(reg.entries@[i].key) == reg.entries@[i],
{
    let key = reg.entries@[i].key;
    assert(reg.has(key));
    let c = choose|c: int| 0 <= c < reg.entries@.len() && (#[trigger] reg.entries@[c]).key == key;
    if c < i {
        assert(reg.entries@[c].key != reg.entries@[i].key);
    } else if i < c {
        assert(reg.entries@[i].key != reg.entries@[c].key);
    }
}

} // verus!
