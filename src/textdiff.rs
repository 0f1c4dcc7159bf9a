//! Text differencing kernel: column-wise overlay of a line on its predecessor.
use vstd::prelude::*;

verus! {

/// Column marker that overwrites a column with a blank.
pub const ERASE: u8 = 38;

/// Blank column.
pub const BLANK: u8 = 32;

pub open spec fn max_len(a: nat, b: nat) -> nat {
    if a < b {
        b
    } else {
        a
    }
}

/// Column `i` recovered from `token` over `prev`: a non-blank token column
/// wins (the erase marker stands for a blank), a blank one keeps the previous
/// column, and columns past the previous line read as blanks.
pub open spec fn overlay_at(prev: Seq<u8>, token: Seq<u8>, i: int) -> u8 {
    if i < token.len() && token[i] == ERASE {
        BLANK
    } else if i < token.len() && token[i] != BLANK {
        token[i]
    } else if i < prev.len() {
        prev[i]
    } else {
        BLANK
    }
}

/// The line recovered from `token` over `prev`.
pub open spec fn overlay(prev: Seq<u8>, token: Seq<u8>) -> Seq<u8> {
    Seq::new(max_len(prev.len(), token.len()), |i: int| overlay_at(prev, token, i))
}

/// Column `i` of the token that turns `prev` into `line`: blank where the
/// column is unchanged, the erase marker where it became blank or lies past
/// the end of `line`, the new character otherwise.
pub open spec fn diff_at(prev: Seq<u8>, line: Seq<u8>, i: int) -> u8 {
    if i >= line.len() {
        ERASE
    } else if i < prev.len() && prev[i] == line[i] {
        BLANK
    } else if line[i] == BLANK {
        ERASE
    } else {
        line[i]
    }
}

/// The token that turns `prev` into `line`.
pub open spec fn text_diff(prev: Seq<u8>, line: Seq<u8>) -> Seq<u8> {
    Seq::new(max_len(prev.len(), line.len()), |i: int| diff_at(prev, line, i))
}

/// `line` extended with blanks to at least `n` columns.
pub open spec fn pad_to(line: Seq<u8>, n: nat) -> Seq<u8> {
    Seq::new(max_len(line.len(), n), |i: int| if i < line.len() { line[i] } else { BLANK })
}

/// The state of one text field: the last reconstructed line.
pub struct TextKernel {
    pub line: Vec<u8>,
}

impl TextKernel {
    /// A kernel whose previous line is `seed`.
    pub fn new(seed: Vec<u8>) -> (r: TextKernel)
        ensures
            r.line@ == seed@,
    {
        TextKernel { line: seed }
    }

    /// Replaces the previous line by `seed`.
    pub fn initialize(&mut self, seed: Vec<u8>)
        ensures
            final(self).line@ == seed@,
    {
        self.line = seed;
    }

    /// Recovers the next line from `token` and keeps it as the previous line.
    pub fn decode(&mut self, token: &[u8]) -> (r: Vec<u8>)
        ensures
            r@ == overlay(old(self).line@, token@),
            final(self).line@ == r@,
    {
        let prev_len = self.line.len();
        let n: usize = if prev_len < token.len() {
            token.len()
        } else {
            prev_len
        };
        let mut out: Vec<u8> = Vec::new();
        let mut i: usize = 0;
        while i < n
            invariant
                i <= n,
                prev_len == self.line.len(),
                n == max_len(prev_len as nat, token@.len()),
                out@.len() == i,
                forall|k: int| 0 <= k < i ==> #[trigger] out@[k] == overlay_at(self.line@, token@, k),
            decreases n - i,
        {
            let c: u8 = if i < token.len() && token[i] == ERASE {
                BLANK
            } else if i < token.len() && token[i] != BLANK {
                token[i]
            } else if i < prev_len {
                self.line[i]
            } else {
                BLANK
            };
            out.push(c);
            i += 1;
        }
        assert(out@ =~= overlay(self.line@, token@));
        self.line = out.clone();
        out
    }

    /// Emits the token that turns the previous line into `line`; afterwards the
    /// kernel holds what a decoder recovers from that token.
    pub fn encode(&mut self, line: &[u8]) -> (r: Vec<u8>)
        ensures
            r@ == text_diff(old(self).line@, line@),
            final(self).line@ == overlay(old(self).line@, r@),
    {
        let prev_len = self.line.len();
        let n: usize = if prev_len < line.len() {
            line.len()
        } else {
            prev_len
        };
        let mut out: Vec<u8> = Vec::new();
        let mut i: usize = 0;
        while i < n
            invariant
                i <= n,
                prev_len == self.line.len(),
                n == max_len(prev_len as nat, line@.len()),
                out@.len() == i,
                forall|k: int| 0 <= k < i ==> #[trigger] out@[k] == diff_at(self.line@, line@, k),
            decreases n - i,
        {
            let c: u8 = if i >= line.len() {
                ERASE
            } else if i < prev_len && self.line[i] == line[i] {
                BLANK
            } else if line[i] == BLANK {
                ERASE
            } else {
                line[i]
            };
            out.push(c);
            i += 1;
        }
        assert(out@ =~= text_diff(self.line@, line@));
        self.decode(out.as_slice());
        out
    }
}

/// Decoding the token that an encoder emitted for a line free of erase
/// markers recovers that line, padded with blanks to the previous length.
pub proof fn law_text_round_trip(prev: Seq<u8>, line: Seq<u8>)
    requires
        forall|i: int| 0 <= i < line.len() ==> line[i] != ERASE,
    ensures
        overlay(prev, text_diff(prev, line)) == pad_to(line, prev.len()),
        prev.len() <= line.len() ==> overlay(prev, text_diff(prev, line)) == line,
{
    assert(overlay(prev, text_diff(prev, line)) =~= pad_to(line, prev.len()));
    assert(prev.len() <= line.len() ==> pad_to(line, prev.len()) =~= line);
}

} // verus!
