//! What the codec reads from a file header, and the header lines it drops.
use vstd::prelude::*;

use crate::fields::{tail_of, trim_end, trim_start, trimmed};

verus! {

/// The number of observation codes declared for one constellation.
#[derive(Debug, Clone, Copy, PartialEq, Eq, Structural)]
pub struct SystemCodes {
    /// Constellation letter (`G`, `R`, `E`, ...; `M` for a list shared by all).
    pub system: u8,
    pub count: usize,
}

/// The header facts that drive the record codec.
#[derive(Debug)]
pub struct HeaderInfo {
    /// Major CRINEX version; `None` when the header carries no CRINEX line.
    pub crinex_version: Option<u8>,
    /// Major RINEX version: 3 and above use the modern record layout.
    pub rinex_major: u8,
    /// Whether the file holds observation data.
    pub observation: bool,
    /// Constellation of satellites whose identifier omits the letter, if
    /// the header names one.
    pub system: Option<u8>,
    /// Observation-code counts per constellation, in header order.
    pub codes: Vec<SystemCodes>,
}

/// The error of the outside header parser, carried opaque.
#[verifier::external_type_specification]
#[verifier::external_body]
pub struct ExParsingError(rinex::prelude::ParsingError);

/// The labels of the header lines the codec reads: CRINEX version, RINEX
/// version and type, and the two forms of the observation-code table, plus
/// the end of the header.
pub open spec fn codec_labels() -> Seq<Seq<u8>> {
    seq![
        seq![67u8, 82, 73, 78, 69, 88, 32, 86, 69, 82, 83, 32, 32, 32, 47, 32, 84, 89, 80, 69],
        seq![82u8, 73, 78, 69, 88, 32, 86, 69, 82, 83, 73, 79, 78, 32, 47, 32, 84, 89, 80, 69],
        seq![83u8, 89, 83, 32, 47, 32, 35, 32, 47, 32, 79, 66, 83, 32, 84, 89, 80, 69, 83],
        seq![35u8, 32, 47, 32, 84, 89, 80, 69, 83, 32, 79, 70, 32, 79, 66, 83, 69, 82, 86],
        seq![69u8, 78, 68, 32, 79, 70, 32, 72, 69, 65, 68, 69, 82],
    ]
}

/// The label of a header line: from column 61 on, blanks aside.
pub open spec fn line_label(line: Seq<u8>) -> Seq<u8> {
    trim_start(trim_end(line.subrange(60, line.len() as int)))
}

/// A header line whose label is one the codec reads.
pub open spec fn is_codec_line(line: Seq<u8>) -> bool {
    line.len() >= 60 && codec_labels().contains(line_label(line))
}

/// The lines among `ls` that carry a label the codec reads, in order.
pub open spec fn codec_lines(ls: Seq<Seq<u8>>) -> Seq<Seq<u8>>
    decreases ls.len(),
{
    if ls.len() == 0 {
        ls
    } else if is_codec_line(ls.last()) {
        codec_lines(ls.drop_last()).push(ls.last())
    } else {
        codec_lines(ls.drop_last())
    }
}

/// The byte views of a list of lines.
pub open spec fn views(ls: Seq<Vec<u8>>) -> Seq<Seq<u8>> {
    ls.map_values(|l: Vec<u8>| l@)
}

/// Keeps the header lines whose label the codec reads, in order.
pub fn codec_header_lines(header_lines: &Vec<Vec<u8>>) -> (r: Vec<Vec<u8>>)
    ensures
        views(r@) == codec_lines(views(header_lines@)),
        forall|k: int| 0 <= k < r@.len() ==> is_codec_line(#[trigger] r@[k]@),
        (forall|i: int| 0 <= i < header_lines@.len() ==> line_label(#[trigger] header_lines@[i]@)
            != codec_labels()[0]) ==> (forall|k: int| 0 <= k < r@.len() ==> line_label(#[trigger] r@[k]@)
            != codec_labels()[0]),
{
    let ghost all = views(header_lines@);
    let ghost no_vers = forall|i: int| 0 <= i < header_lines@.len() ==> line_label(#[trigger] header_lines@[i]@)
        != codec_labels()[0];
    let mut kept: Vec<Vec<u8>> = Vec::new();
    let mut i: usize = 0;
    while i < header_lines.len()
        invariant
            i <= header_lines@.len(),
            all == views(header_lines@),
            no_vers == (forall|i: int| 0 <= i < header_lines@.len() ==> line_label(#[trigger] header_lines@[i]@)
                != codec_labels()[0]),
            views(kept@) == codec_lines(all.subrange(0, i as int)),
            forall|k: int| 0 <= k < kept@.len() ==> is_codec_line(#[trigger] kept@[k]@),
            no_vers ==> forall|k: int| 0 <= k < kept@.len() ==> line_label(#[trigger] kept@[k]@) != codec_labels()[0],
        decreases header_lines@.len() - i,
    {
        let ghost before = kept@;
        assert(all.subrange(0, i + 1).drop_last() =~= all.subrange(0, i as int));
        assert(all.subrange(0, i + 1).last() == header_lines@[i as int]@);
        if codec_line(header_lines[i].as_slice()) {
            let line = header_lines[i].clone();
            assert(line@ =~= header_lines@[i as int]@);
            kept.push(line);
            assert(views(kept@) =~= views(before).push(header_lines@[i as int]@));
        }
        i += 1;
    }
    assert(all.subrange(0, header_lines@.len() as int) =~= all);
    kept
}

/// Relies on rinex::header::Header::parse: reads the given header lines,
/// each of which carries one of the codec's labels (on those labels the
/// parser takes no path that can panic). Only a CRINEX VERS line sets the
/// CRINEX version. The constellations are written as their one-letter codes;
/// the code table comes out of a hash map, so nothing is promised of its
/// order.
#[verifier::external_body]
pub(crate) fn parse_header(lines: &Vec<Vec<u8>>) -> (r: Result<HeaderInfo, rinex::prelude::ParsingError>)
    requires
        forall|i: int| 0 <= i < lines@.len() ==> is_codec_line(#[trigger] lines@[i]@),
    ensures
        (forall|i: int| 0 <= i < lines@.len() ==> line_label(#[trigger] lines@[i]@) != codec_labels()[0])
            ==> (r is Ok ==> r->Ok_0.crinex_version is None),
{
    let text = lines.join(&b'\n');
    let h = rinex::header::Header::parse(&mut std::io::BufReader::new(text.as_slice()))?;
    let letter = |c: &rinex::prelude::Constellation| format!("{:x}", c).as_bytes()[0];
    let obs = h.obs.unwrap_or_default();
    Ok(HeaderInfo {
        crinex_version: obs.crinex.map(|c| c.version.major),
        rinex_major: h.version.major,
        observation: h.rinex_type == rinex::prelude::RinexType::ObservationData,
        system: h.constellation.as_ref().map(letter),
        codes: obs.codes.iter().map(|(c, v)| SystemCodes { system: letter(c), count: v.len() }).collect(),
    })
}

/// Whether two byte strings are equal.
pub fn same_bytes(a: &[u8], b: &[u8]) -> (r: bool)
    ensures
        r == (a@ == b@),
{
    if a.len() != b.len() {
        return false;
    }
    let mut i: usize = 0;
    while i < a.len()
        invariant
            i <= a@.len(),
            a@.len() == b@.len(),
            forall|k: int| 0 <= k < i ==> a@[k] == b@[k],
        decreases a@.len() - i,
    {
        if a[i] != b[i] {
            return false;
        }
        i += 1;
    }
    assert(a@ =~= b@);
    true
}

/// Whether a header line carries one of the labels the codec reads.
pub fn codec_line(line: &[u8]) -> (r: bool)
    ensures
        r == is_codec_line(line@),
{
    if line.len() < 60 {
        return false;
    }
    let tail = tail_of(line, 60);
    let label = trimmed(tail.as_slice());
    let labels: Vec<Vec<u8>> = vec![
        vec![67u8, 82, 73, 78, 69, 88, 32, 86, 69, 82, 83, 32, 32, 32, 47, 32, 84, 89, 80, 69],
        vec![82u8, 73, 78, 69, 88, 32, 86, 69, 82, 83, 73, 79, 78, 32, 47, 32, 84, 89, 80, 69],
        vec![83u8, 89, 83, 32, 47, 32, 35, 32, 47, 32, 79, 66, 83, 32, 84, 89, 80, 69, 83],
        vec![35u8, 32, 47, 32, 84, 89, 80, 69, 83, 32, 79, 70, 32, 79, 66, 83, 69, 82, 86],
        vec![69u8, 78, 68, 32, 79, 70, 32, 72, 69, 65, 68, 69, 82],
    ];
    let ghost views = labels@.map_values(|v: Vec<u8>| v@);
    assert(views =~= codec_labels());
    let mut i: usize = 0;
    while i < labels.len()
        invariant
            i <= labels@.len(),
            views == labels@.map_values(|v: Vec<u8>| v@),
            views == codec_labels(),
            label@ == trim_start(trim_end(line@.subrange(60, line@.len() as int))),
            line@.len() >= 60,
            forall|k: int| 0 <= k < i ==> views[k] != label@,
        decreases labels@.len() - i,
    {
        if same_bytes(labels[i].as_slice(), label.as_slice()) {
            assert(views[i as int] == label@);
            return true;
        }
        i += 1;
    }
    assert(!codec_labels().contains(label@));
    false
}

/// Index of the first entry for `system` at or after `from`, if any.
pub open spec fn first_entry(codes: Seq<SystemCodes>, system: u8, from: int) -> Option<int>
    decreases codes.len() - from,
{
    if from < 0 || from >= codes.len() {
        None
    } else if codes[from].system == system {
        Some(from)
    } else {
        first_entry(codes, system, from + 1)
    }
}

/// Letter of the shared code list.
pub const MIXED: u8 = 77;

/// The code count of a constellation: its own list, else the shared one.
pub open spec fn code_count(codes: Seq<SystemCodes>, system: u8) -> Option<usize> {
    match first_entry(codes, system, 0) {
        Some(i) => Some(codes[i].count),
        None => match first_entry(codes, MIXED, 0) {
            Some(i) => Some(codes[i].count),
            None => None,
        },
    }
}

fn find_entry(codes: &Vec<SystemCodes>, system: u8) -> (r: Option<usize>)
    ensures
        match r {
            Some(i) => i < codes@.len() && first_entry(codes@, system, 0) == Some(i as int),
            None => first_entry(codes@, system, 0).is_none(),
        },
{
    let mut i: usize = 0;
    while i < codes.len()
        invariant
            i <= codes@.len(),
            first_entry(codes@, system, 0) == first_entry(codes@, system, i as int),
        decreases codes@.len() - i,
    {
        if codes[i].system == system {
            return Some(i);
        }
        i += 1;
    }
    None
}

/// Looks up the number of observation codes of a constellation.
pub fn codes_for(codes: &Vec<SystemCodes>, system: u8) -> (r: Option<usize>)
    ensures
        r == code_count(codes@, system),
{
    match find_entry(codes, system) {
        Some(i) => Some(codes[i].count),
        None => match find_entry(codes, MIXED) {
            Some(i) => Some(codes[i].count),
            None => None,
        },
    }
}

/// Whether `pat` occurs in `s` at column `at`.
pub open spec fn occurs_at(s: Seq<u8>, pat: Seq<u8>, at: int) -> bool {
    0 <= at && at + pat.len() <= s.len() && s.subrange(at, at + pat.len()) == pat
}

pub open spec fn contains(s: Seq<u8>, pat: Seq<u8>) -> bool {
    exists|at: int| occurs_at(s, pat, at)
}

fn occurs(s: &[u8], pat: &[u8], at: usize) -> (r: bool)
    requires
        at + pat@.len() <= s@.len(),
    ensures
        r == occurs_at(s@, pat@, at as int),
{
    let n = s.len();
    let mut k: usize = 0;
    while k < pat.len()
        invariant
            n == s@.len(),
            k <= pat@.len(),
            at + pat@.len() <= s@.len(),
            forall|j: int| 0 <= j < k ==> s@[at + j] == pat@[j],
        decreases pat@.len() - k,
    {
        assert(at + k < s@.len());
        if s[at + k] != pat[k] {
            assert(s@.subrange(at as int, at + pat@.len())[k as int] != pat@[k as int]);
            return false;
        }
        k += 1;
    }
    assert(s@.subrange(at as int, at + pat@.len()) =~= pat@);
    true
}

/// Whether `pat` occurs anywhere in `s`.
pub fn find_text(s: &[u8], pat: &[u8]) -> (r: bool)
    ensures
        r == contains(s@, pat@),
{
    if pat.len() > s.len() {
        return false;
    }
    if pat.len() == 0 {
        assert(s@.subrange(0, 0) =~= pat@);
        assert(occurs_at(s@, pat@, 0));
        return true;
    }
    let n = s.len();
    let last = n - pat.len();
    let mut at: usize = 0;
    while at <= last
        invariant
            n == s@.len(),
            last == s@.len() - pat@.len(),
            last < s@.len(),
            at <= last + 1,
            forall|j: int| 0 <= j < at ==> !occurs_at(s@, pat@, j),
        decreases last + 1 - at,
    {
        if occurs(s, pat, at) {
            return true;
        }
        at += 1;
    }
    assert forall|j: int| !occurs_at(s@, pat@, j) by {
        if 0 <= j <= last {
            assert(j < at);
        }
    }
    false
}

/// The label of the line that ends a header.
pub open spec fn end_of_header_label() -> Seq<u8> {
    seq![69u8, 78, 68, 32, 79, 70, 32, 72, 69, 65, 68, 69, 82]
}

/// The labels of the two header lines that only a compact file carries.
pub open spec fn crinex_version_label() -> Seq<u8> {
    seq![67u8, 82, 73, 78, 69, 88, 32, 86, 69, 82, 83]
}

pub open spec fn crinex_program_label() -> Seq<u8> {
    seq![67u8, 82, 73, 78, 69, 88, 32, 80, 82, 79, 71]
}

/// Whether a header line is the last one.
pub fn is_end_of_header(line: &[u8]) -> (r: bool)
    ensures
        r == contains(line@, end_of_header_label()),
{
    let pat: Vec<u8> = vec![69u8, 78, 68, 32, 79, 70, 32, 72, 69, 65, 68, 69, 82];
    assert(pat@ =~= end_of_header_label());
    find_text(line, pat.as_slice())
}

/// Whether a header line is published in the RINEX file: the CRINEX
/// version and program lines are not.
pub fn keep_header_line(line: &[u8]) -> (r: bool)
    ensures
        r == (!contains(line@, crinex_version_label()) && !contains(line@, crinex_program_label())),
{
    let vers: Vec<u8> = vec![67u8, 82, 73, 78, 69, 88, 32, 86, 69, 82, 83];
    let prog: Vec<u8> = vec![67u8, 82, 73, 78, 69, 88, 32, 80, 82, 79, 71];
    assert(vers@ =~= crinex_version_label());
    assert(prog@ =~= crinex_program_label());
    !find_text(line, vers.as_slice()) && !find_text(line, prog.as_slice())
}

} // verus!
