//! Molecule records and the pull parser that cuts a decompressed mol2 stream
//! into them.
//!
//! The stream is read a line at a time. A `Name:` header gives the record's
//! id, a `Total Energy:` header its energy, and `@<TRIPOS>` section markers
//! its structure: the `MOLECULE` section brings two more lines, the second of
//! which declares how many lines each later section holds; any other section
//! takes its marker line and the declared number of lines. A record is
//! complete after a section when the count declared for the next section is
//! zero, or when no count is declared for it. Every line read belongs, byte
//! for byte, to the record being built.
use vstd::prelude::*;
use crate::codec::{decompress, gunzip, gunzip_ok};
use crate::decimal::{count_value, decimal_units, parse_count, Energy};
use crate::text::{
    append_range, bytes_at, bytes_equal, has_at, has_prefix, lines_of, slice_to_vec,
    split_lines, split_tokens, tokens, trim, trimmed,
};

verus! {

/// Why a run stops.
#[derive(Clone, Copy, Debug, PartialEq, Eq)]
pub enum Mol2Error {
    /// An energy header whose value is not a number.
    MalformedEnergy,
    /// A section count that is not an integer from 0 to 255.
    MalformedCount,
    /// A query table whose first line has neither one nor two columns.
    MalformedQuery,
    /// A query table energy that is not a number.
    MalformedQueryEnergy,
    /// Compressed input that does not decode.
    Decode,
    /// Output that could not be compressed.
    Encode,
}

/// What a record holds: its id, its energy and its exact text.
pub struct Mol2View {
    pub name: Seq<u8>,
    pub energy: Energy,
    pub lines: Seq<u8>,
}

/// One molecule record. Two records are equal when their ids are.
#[derive(Clone, Debug)]
pub struct Mol2 {
    name: Vec<u8>,
    energy: Energy,
    lines: Vec<u8>,
}

impl View for Mol2 {
    type V = Mol2View;

    closed spec fn view(&self) -> Mol2View {
        Mol2View { name: self.name@, energy: self.energy, lines: self.lines@ }
    }
}

impl PartialEq for Mol2 {
    fn eq(&self, other: &Mol2) -> (r: bool) {
        bytes_equal(self.name.as_slice(), other.name.as_slice())
    }
}

impl vstd::std_specs::cmp::PartialEqSpecImpl for Mol2 {
    open spec fn obeys_eq_spec() -> bool {
        true
    }

    open spec fn eq_spec(&self, other: &Mol2) -> bool {
        self@.name == other@.name
    }
}

impl Eq for Mol2 {
}

/// The record that a parse starts from: no id, the default energy, no text.
pub open spec fn empty_record() -> Mol2View {
    Mol2View { name: Seq::empty(), energy: Energy::spec_default(), lines: Seq::empty() }
}

impl Mol2 {
    pub fn new() -> (r: Mol2)
        ensures
            r@ == empty_record(),
            r@.energy.wf(),
    {
        Mol2 { name: Vec::new(), energy: Energy::default_energy(), lines: Vec::new() }
    }

    pub fn add_name(&mut self, name: Vec<u8>)
        ensures
            final(self)@ == (Mol2View { name: name@, ..old(self)@ }),
    {
        self.name = name;
    }

    pub fn add_energy(&mut self, energy: Energy)
        ensures
            final(self)@ == (Mol2View { energy, ..old(self)@ }),
    {
        self.energy = energy;
    }

    pub fn add_line(&mut self, line: &[u8])
        ensures
            final(self)@ == (Mol2View { lines: old(self)@.lines + line@, ..old(self)@ }),
    {
        let n = line.len();
        append_range(&mut self.lines, line, 0, n);
        assert(line@.subrange(0, n as int) =~= line@);
    }

    pub fn get_name(&self) -> (r: &[u8])
        ensures
            r@ == self@.name,
    {
        self.name.as_slice()
    }

    pub fn get_energy(&self) -> (r: Energy)
        ensures
            r == self@.energy,
    {
        self.energy
    }

    pub fn get_lines(&self) -> (r: &[u8])
        ensures
            r@ == self@.lines,
    {
        self.lines.as_slice()
    }
}

/// `Name:`
pub open spec fn name_key() -> Seq<u8> {
    seq![78u8, 97u8, 109u8, 101u8, 58u8]
}

/// `Total Energy:`
pub open spec fn energy_key() -> Seq<u8> {
    seq![84u8, 111u8, 116u8, 97u8, 108u8, 32u8, 69u8, 110u8, 101u8, 114u8, 103u8, 121u8, 58u8]
}

/// `@<TRIPOS>`, the start of every section marker.
pub open spec fn section_marker() -> Seq<u8> {
    seq![64u8, 60u8, 84u8, 82u8, 73u8, 80u8, 79u8, 83u8, 62u8]
}

/// `@<TRIPOS>MOLECULE`
pub open spec fn molecule_marker() -> Seq<u8> {
    section_marker() + seq![77u8, 79u8, 76u8, 69u8, 67u8, 85u8, 76u8, 69u8]
}

/// End of the run of bytes `c` that starts at `i`.
pub open spec fn run_end(s: Seq<u8>, i: int, c: u8) -> int
    decreases s.len() - i,
{
    if 0 <= i < s.len() && s[i] == c {
        run_end(s, i + 1, c)
    } else {
        i
    }
}

/// Where a header `#+ +key +` that starts at `i` ends: one or more `#`,
/// one or more spaces, the key, one or more spaces.
pub open spec fn header_end_at(s: Seq<u8>, i: int, key: Seq<u8>) -> Option<int> {
    if 0 <= i < s.len() && s[i] == 35u8 {
        let h = run_end(s, i, 35u8);
        if h < s.len() && s[h] == 32u8 {
            let k = run_end(s, h, 32u8);
            let q = k + key.len();
            if has_at(s, k, key) && q < s.len() && s[q] == 32u8 {
                Some(run_end(s, q, 32u8))
            } else {
                None
            }
        } else {
            None
        }
    } else {
        None
    }
}

/// End of the leftmost header with `key` in `s[i..]`.
pub open spec fn first_header_end(s: Seq<u8>, key: Seq<u8>, i: int) -> Option<int>
    decreases s.len() - i,
{
    if 0 <= i < s.len() {
        match header_end_at(s, i, key) {
            Some(e) => Some(e),
            None => first_header_end(s, key, i + 1),
        }
    } else {
        None
    }
}

/// What a line means to the parser.
pub enum LineKind {
    /// A `Name:` header, with the id it gives.
    Name(Seq<u8>),
    /// A `Total Energy:` header, with its value in units when it has one.
    Energy(Option<int>),
    /// The `MOLECULE` section marker.
    Molecule,
    /// Any other section marker.
    Section,
    /// Anything else.
    Other,
}

/// The kind of `line`; a header is looked for before a marker, and a name
/// before an energy. A header's value is the trimmed text after it.
pub open spec fn line_kind(line: Seq<u8>) -> LineKind {
    match first_header_end(line, name_key(), 0) {
        Some(e) => LineKind::Name(trim(line.subrange(e, line.len() as int))),
        None => match first_header_end(line, energy_key(), 0) {
            Some(e) => LineKind::Energy(decimal_units(trim(line.subrange(e, line.len() as int)))),
            None => if has_prefix(line, molecule_marker()) {
                LineKind::Molecule
            } else if has_prefix(line, section_marker()) {
                LineKind::Section
            } else {
                LineKind::Other
            },
        },
    }
}

/// The section counts that a `MOLECULE` section declares in `line`: one per
/// token, or `None` when a token is not a count.
pub open spec fn counts_of(line: Seq<u8>) -> Option<Seq<u8>> {
    let t = tokens(line);
    if forall|k: int| 0 <= k < t.len() ==> (#[trigger] count_value(t[k])).is_some() {
        Some(Seq::new(t.len(), |k: int| count_value(t[k]).unwrap()))
    } else {
        None
    }
}

/// The number of lines declared for section `k`; zero where none is.
pub open spec fn count_at(counts: Seq<u8>, k: nat) -> nat {
    if k < counts.len() {
        counts[k as int] as nat
    } else {
        0
    }
}

/// A record being built: what it holds so far, the index of the next
/// section, and the declared counts.
pub struct ScanState {
    pub rec: Mol2View,
    pub section: nat,
    pub counts: Seq<u8>,
}

pub open spec fn start_state() -> ScanState {
    ScanState { rec: empty_record(), section: 0, counts: Seq::empty() }
}

pub open spec fn complete(st: ScanState) -> bool {
    st.section > 0 && count_at(st.counts, st.section) == 0
}

pub open spec fn with_text(st: ScanState, text: Seq<u8>) -> ScanState {
    ScanState { rec: Mol2View { lines: st.rec.lines + text, ..st.rec }, ..st }
}

/// What the parser does from line `i` on, in state `st`.
pub enum Scan {
    /// The stream ends before a record is complete.
    Exhausted,
    /// The run stops on this error.
    Malformed(Mol2Error),
    /// A record is complete; the next one starts at the given line.
    Record(Mol2View, int),
}

pub open spec fn scan(ls: Seq<Seq<u8>>, i: int, st: ScanState) -> Scan
    decreases ls.len() - i,
{
    if i < 0 || i >= ls.len() {
        Scan::Exhausted
    } else {
        let line = ls[i];
        match line_kind(line) {
            LineKind::Name(id) => scan(
                ls,
                i + 1,
                with_text(ScanState { rec: Mol2View { name: id, ..st.rec }, ..st }, line),
            ),
            LineKind::Energy(None) => Scan::Malformed(Mol2Error::MalformedEnergy),
            LineKind::Energy(Some(u)) => scan(
                ls,
                i + 1,
                with_text(
                    ScanState { rec: Mol2View { energy: Energy { units: u as i128 }, ..st.rec }, ..st },
                    line,
                ),
            ),
            LineKind::Molecule => if i + 2 >= ls.len() {
                Scan::Exhausted
            } else {
                match counts_of(ls[i + 2]) {
                    None => Scan::Malformed(Mol2Error::MalformedCount),
                    Some(c) => {
                        let st2 = with_text(
                            ScanState { counts: c, ..st },
                            ls.subrange(i, i + 3).flatten(),
                        );
                        if complete(st2) {
                            Scan::Record(st2.rec, i + 3)
                        } else {
                            scan(ls, i + 3, st2)
                        }
                    },
                }
            },
            LineKind::Section => {
                let c = count_at(st.counts, st.section);
                if i + c >= ls.len() {
                    Scan::Exhausted
                } else {
                    let st2 = with_text(
                        ScanState { section: st.section + 1, ..st },
                        ls.subrange(i, i + c + 1).flatten(),
                    );
                    if complete(st2) {
                        Scan::Record(st2.rec, i + c + 1)
                    } else {
                        scan(ls, i + c + 1, st2)
                    }
                }
            },
            LineKind::Other => scan(ls, i + 1, with_text(st, line)),
        }
    }
}

/// What the next pull from line `i` gives.
pub open spec fn next_scan(ls: Seq<Seq<u8>>, i: int) -> Scan {
    scan(ls, i, start_state())
}

/// All records from line `i` on, in order, or the error that stops the run.
pub open spec fn records_from(ls: Seq<Seq<u8>>, i: int) -> Result<Seq<Mol2View>, Mol2Error>
    decreases ls.len() - i,
{
    match next_scan(ls, i) {
        Scan::Exhausted => Ok(Seq::empty()),
        Scan::Malformed(e) => Err(e),
        Scan::Record(v, j) => if i < j <= ls.len() {
            match records_from(ls, j) {
                Ok(rest) => Ok(seq![v] + rest),
                Err(e) => Err(e),
            }
        } else {
            Ok(seq![v])
        },
    }
}

/// All records of a decompressed stream.
pub open spec fn records_of(text: Seq<u8>) -> Result<Seq<Mol2View>, Mol2Error> {
    records_from(lines_of(text), 0)
}

/// A record ends past the line it starts at, and within the stream.
pub proof fn lemma_scan_end(ls: Seq<Seq<u8>>, i: int, st: ScanState)
    ensures
        scan(ls, i, st) matches Scan::Record(_, j) ==> i < j <= ls.len(),
    decreases ls.len() - i,
{
    if 0 <= i < ls.len() {
        match line_kind(ls[i]) {
            LineKind::Name(id) => {
                lemma_scan_end(
                    ls,
                    i + 1,
                    with_text(ScanState { rec: Mol2View { name: id, ..st.rec }, ..st }, ls[i]),
                );
            },
            LineKind::Energy(Some(u)) => {
                lemma_scan_end(
                    ls,
                    i + 1,
                    with_text(
                        ScanState {
                            rec: Mol2View { energy: Energy { units: u as i128 }, ..st.rec },
                            ..st
                        },
                        ls[i],
                    ),
                );
            },
            LineKind::Molecule => {
                if i + 2 < ls.len() {
                    if let Some(c) = counts_of(ls[i + 2]) {
                        let st2 = with_text(
                            ScanState { counts: c, ..st },
                            ls.subrange(i, i + 3).flatten(),
                        );
                        lemma_scan_end(ls, i + 3, st2);
                    }
                }
            },
            LineKind::Section => {
                let c = count_at(st.counts, st.section);
                if i + c < ls.len() {
                    let st2 = with_text(
                        ScanState { section: st.section + 1, ..st },
                        ls.subrange(i, i + c + 1).flatten(),
                    );
                    lemma_scan_end(ls, i + c + 1, st2);
                }
            },
            LineKind::Other => {
                lemma_scan_end(ls, i + 1, with_text(st, ls[i]));
            },
            _ => {},
        }
    }
}

fn name_key_bytes() -> (r: Vec<u8>)
    ensures
        r@ == name_key(),
{
    let r: Vec<u8> = vec![78, 97, 109, 101, 58];
    assert(r@ =~= name_key());
    r
}

fn energy_key_bytes() -> (r: Vec<u8>)
    ensures
        r@ == energy_key(),
{
    let r: Vec<u8> = vec![84, 111, 116, 97, 108, 32, 69, 110, 101, 114, 103, 121, 58];
    assert(r@ =~= energy_key());
    r
}

fn section_marker_bytes() -> (r: Vec<u8>)
    ensures
        r@ == section_marker(),
{
    let r: Vec<u8> = vec![64, 60, 84, 82, 73, 80, 79, 83, 62];
    assert(r@ =~= section_marker());
    r
}

fn molecule_marker_bytes() -> (r: Vec<u8>)
    ensures
        r@ == molecule_marker(),
{
    let r: Vec<u8> = vec![64, 60, 84, 82, 73, 80, 79, 83, 62, 77, 79, 76, 69, 67, 85, 76, 69];
    assert(r@ =~= molecule_marker());
    r
}

/// The byte strings the parser looks for.
struct Keys {
    name: Vec<u8>,
    energy: Vec<u8>,
    section: Vec<u8>,
    molecule: Vec<u8>,
}

impl Keys {
    spec fn wf(&self) -> bool {
        &&& self.name@ == name_key()
        &&& self.energy@ == energy_key()
        &&& self.section@ == section_marker()
        &&& self.molecule@ == molecule_marker()
    }

    fn new() -> (r: Keys)
        ensures
            r.wf(),
    {
        Keys {
            name: name_key_bytes(),
            energy: energy_key_bytes(),
            section: section_marker_bytes(),
            molecule: molecule_marker_bytes(),
        }
    }
}

fn run_end_exec(s: &[u8], i: usize, c: u8) -> (r: usize)
    requires
        i <= s@.len(),
    ensures
        r == run_end(s@, i as int, c),
        i <= r <= s@.len(),
{
    let mut j: usize = i;
    while j < s.len() && s[j] == c
        invariant
            i <= j <= s@.len(),
            run_end(s@, i as int, c) == run_end(s@, j as int, c),
        decreases s@.len() - j,
    {
        j = j + 1;
    }
    j
}

fn header_at(s: &[u8], i: usize, key: &[u8]) -> (r: Option<usize>)
    requires
        i < s@.len(),
    ensures
        r.is_some() == header_end_at(s@, i as int, key@).is_some(),
        r.is_some() ==> r.unwrap() == header_end_at(s@, i as int, key@).unwrap(),
        r.is_some() ==> r.unwrap() <= s@.len(),
{
    let n = s.len();
    if s[i] != 35 {
        return None;
    }
    let h = run_end_exec(s, i, 35);
    if h >= n || s[h] != 32 {
        return None;
    }
    let k = run_end_exec(s, h, 32);
    if !bytes_at(s, k, key) {
        return None;
    }
    let q = k + key.len();
    if q >= n || s[q] != 32 {
        return None;
    }
    Some(run_end_exec(s, q, 32))
}

fn find_header(s: &[u8], key: &[u8]) -> (r: Option<usize>)
    ensures
        r.is_some() == first_header_end(s@, key@, 0).is_some(),
        r.is_some() ==> r.unwrap() == first_header_end(s@, key@, 0).unwrap(),
        r.is_some() ==> r.unwrap() <= s@.len(),
{
    let mut i: usize = 0;
    while i < s.len()
        invariant
            i <= s@.len(),
            first_header_end(s@, key@, 0) == first_header_end(s@, key@, i as int),
        decreases s@.len() - i,
    {
        match header_at(s, i, key) {
            Some(e) => {
                return Some(e);
            },
            None => {},
        }
        i = i + 1;
    }
    None
}

/// A classified line.
enum LineClass {
    Name(Vec<u8>),
    Energy(Option<Energy>),
    Molecule,
    Section,
    Other,
}

impl LineClass {
    spec fn kind(&self) -> LineKind {
        match self {
            LineClass::Name(v) => LineKind::Name(v@),
            LineClass::Energy(Some(e)) => LineKind::Energy(Some(e.units as int)),
            LineClass::Energy(None) => LineKind::Energy(None),
            LineClass::Molecule => LineKind::Molecule,
            LineClass::Section => LineKind::Section,
            LineClass::Other => LineKind::Other,
        }
    }
}

fn classify(line: &[u8], keys: &Keys) -> (r: LineClass)
    requires
        keys.wf(),
    ensures
        r.kind() == line_kind(line@),
        r matches LineClass::Energy(Some(e)) ==> e.wf(),
{
    let n = line.len();
    match find_header(line, keys.name.as_slice()) {
        Some(e) => {
            let tail = slice_to_vec(line, e, n);
            return LineClass::Name(trimmed(tail.as_slice()));
        },
        None => {},
    }
    match find_header(line, keys.energy.as_slice()) {
        Some(e) => {
            let tail = slice_to_vec(line, e, n);
            let t = trimmed(tail.as_slice());
            return LineClass::Energy(Energy::parse(t.as_slice()));
        },
        None => {},
    }
    if bytes_at(line, 0, keys.molecule.as_slice()) {
        LineClass::Molecule
    } else if bytes_at(line, 0, keys.section.as_slice()) {
        LineClass::Section
    } else {
        LineClass::Other
    }
}

/// The counts that a `MOLECULE` section declares in `line`.
fn parse_counts(line: &[u8]) -> (r: Option<Vec<u8>>)
    ensures
        r.is_some() == counts_of(line@).is_some(),
        r.is_some() ==> r.unwrap()@ == counts_of(line@).unwrap(),
{
    let toks = split_tokens(line);
    let ghost t = tokens(line@);
    let mut out: Vec<u8> = Vec::new();
    let mut k: usize = 0;
    while k < toks.len()
        invariant
            k <= toks@.len() == t.len(),
            t == tokens(line@),
            forall|j: int| 0 <= j < toks@.len() ==> #[trigger] toks@[j]@ == t[j],
            out@.len() == k,
            forall|j: int| 0 <= j < k ==> (#[trigger] count_value(t[j])).is_some(),
            forall|j: int| 0 <= j < k ==> out@[j] == (#[trigger] count_value(t[j])).unwrap(),
        decreases toks@.len() - k,
    {
        match parse_count(toks[k].as_slice()) {
            Some(v) => {
                out.push(v);
            },
            None => {
                assert(count_value(t[k as int]).is_none());
                return None;
            },
        }
        k = k + 1;
    }
    assert(out@ =~= Seq::new(t.len(), |j: int| count_value(t[j]).unwrap()));
    Some(out)
}

pub open spec fn views_of(lines: Seq<Vec<u8>>) -> Seq<Seq<u8>> {
    lines.map_values(|l: Vec<u8>| l@)
}

/// Appends lines `a..b` to `dst`.
fn append_lines(dst: &mut Vec<u8>, lines: &Vec<Vec<u8>>, a: usize, b: usize)
    requires
        a <= b <= lines@.len(),
    ensures
        final(dst)@ == old(dst)@ + views_of(lines@).subrange(a as int, b as int).flatten(),
{
    let ghost ls = views_of(lines@);
    let mut k: usize = a;
    assert(ls.subrange(a as int, a as int) =~= Seq::<Seq<u8>>::empty());
    assert(old(dst)@ + Seq::<u8>::empty() =~= old(dst)@);
    while k < b
        invariant
            a <= k <= b <= lines@.len(),
            ls == views_of(lines@),
            dst@ == old(dst)@ + ls.subrange(a as int, k as int).flatten(),
        decreases b - k,
    {
        let line = lines[k].as_slice();
        let n = line.len();
        append_range(dst, line, 0, n);
        proof {
            assert(line@.subrange(0, n as int) =~= line@);
            assert(ls.subrange(a as int, k + 1) =~= ls.subrange(a as int, k as int).push(ls[k as int]));
            ls.subrange(a as int, k as int).lemma_flatten_push(ls[k as int]);
            assert(dst@ =~= old(dst)@ + ls.subrange(a as int, k + 1).flatten());
        }
        k = k + 1;
    }
}

/// A pull parser over the lines of one decompressed stream.
pub struct Mol2Reader {
    lines: Vec<Vec<u8>>,
    pos: usize,
}

impl Mol2Reader {
    /// The lines of the stream.
    pub closed spec fn line_seq(&self) -> Seq<Seq<u8>> {
        views_of(self.lines@)
    }

    /// The line the next record starts at.
    pub closed spec fn position(&self) -> int {
        self.pos as int
    }

    /// The position lies within the stream.
    pub closed spec fn wf(&self) -> bool {
        self.pos <= self.lines@.len()
    }

    pub proof fn lemma_bounds(&self)
        ensures
            0 <= self.position(),
            self.line_seq().len() <= usize::MAX,
            self.wf() ==> self.position() <= self.line_seq().len(),
    {
        assert(self.line_seq().len() == self.lines@.len());
        assert(self.lines@.len() <= usize::MAX) by {
            vstd::std_specs::vec::axiom_spec_len(&self.lines);
        }
    }

    /// A reader over decompressed text.
    pub fn from_text(text: &[u8]) -> (r: Mol2Reader)
        ensures
            r.line_seq() == lines_of(text@),
            r.position() == 0,
            r.wf(),
    {
        let lines = split_lines(text);
        let r = Mol2Reader { lines, pos: 0 };
        assert(r.line_seq() =~= lines_of(text@));
        r
    }

    /// A reader over gzip-compressed input; all its members are read.
    pub fn new(compressed: &[u8]) -> (r: Result<Mol2Reader, Mol2Error>)
        ensures
            r.is_ok() == gunzip_ok(compressed@),
            r matches Ok(rd) ==> rd.line_seq() == lines_of(gunzip(compressed@)) && rd.position()
                == 0 && rd.wf(),
            r matches Err(e) ==> e == Mol2Error::Decode,
    {
        match decompress(compressed) {
            Ok(text) => Ok(Mol2Reader::from_text(text.as_slice())),
            Err(e) => Err(e),
        }
    }

    /// The next record. `Ok(None)` once the stream is exhausted, for good; a
    /// record that the stream cuts short is dropped. After an error the
    /// reader is exhausted.
    pub fn next_record(&mut self) -> (r: Result<Option<Mol2>, Mol2Error>)
        requires
            old(self).wf(),
        ensures
            final(self).line_seq() == old(self).line_seq(),
            final(self).wf(),
            match next_scan(old(self).line_seq(), old(self).position()) {
                Scan::Exhausted => {
                    &&& r == Ok::<Option<Mol2>, Mol2Error>(None)
                    &&& final(self).position() == old(self).line_seq().len()
                },
                Scan::Malformed(e) => {
                    &&& r == Err::<Option<Mol2>, Mol2Error>(e)
                    &&& final(self).position() == old(self).line_seq().len()
                },
                Scan::Record(v, j) => {
                    &&& r.is_ok() && r.unwrap().is_some()
                    &&& r.unwrap().unwrap()@ == v
                    &&& final(self).position() == j
                },
            },
            r matches Ok(Some(m)) ==> m@.energy.wf(),
    {
        let (r, p) = read_record(&self.lines, self.pos);
        proof {
            lemma_scan_end(self.line_seq(), self.pos as int, start_state());
        }
        self.pos = p;
        r
    }

    /// All the records from the current position on, in order.
    pub fn read_all(&mut self) -> (r: Result<Vec<Mol2>, Mol2Error>)
        requires
            old(self).wf(),
        ensures
            final(self).wf(),
            final(self).line_seq() == old(self).line_seq(),
            match records_from(old(self).line_seq(), old(self).position()) {
                Ok(recs) => r.is_ok() && record_views(r.unwrap()@) == recs && (forall|k: int|
                    0 <= k < recs.len() ==> (#[trigger] recs[k]).energy.wf()),
                Err(e) => r == Err::<Vec<Mol2>, Mol2Error>(e),
            },
    {
        let ghost ls = old(self).line_seq();
        let ghost first_pos = old(self).position();
        let mut out: Vec<Mol2> = Vec::new();
        let ghost mut seen: Seq<Mol2View> = Seq::empty();
        assert(seen + Seq::<Mol2View>::empty() =~= seen);
        loop
            invariant
                self.wf(),
                self.line_seq() == ls,
                ls == old(self).line_seq(),
                first_pos == old(self).position(),
                records_from(ls, first_pos) == prepend(seen, records_from(ls, self.position())),
                record_views(out@) == seen,
                forall|k: int| 0 <= k < seen.len() ==> (#[trigger] seen[k]).energy.wf(),
            ensures
                records_from(ls, first_pos) == Ok::<Seq<Mol2View>, Mol2Error>(seen),
                record_views(out@) == seen,
                forall|k: int| 0 <= k < seen.len() ==> (#[trigger] seen[k]).energy.wf(),
                self.wf(),
                self.line_seq() == ls,
            decreases ls.len() - self.position(),
        {
            let ghost before = self.position();
            proof {
                lemma_records_step(ls, before);
            }
            match self.next_record() {
                Err(e) => {
                    return Err(e);
                },
                Ok(None) => {
                    assert(seen + Seq::<Mol2View>::empty() =~= seen);
                    break ;
                },
                Ok(Some(rec)) => {
                    proof {
                        lemma_prepend_push(seen, rec@, records_from(ls, self.position()));
                        seen = seen.push(rec@);
                    }
                    out.push(rec);
                    assert(record_views(out@) =~= seen);
                },
            }
        }
        Ok(out)
    }
}

/// The views of `v`.
pub open spec fn record_views(v: Seq<Mol2>) -> Seq<Mol2View> {
    v.map_values(|m: Mol2| m@)
}

/// `r` with `seen` put in front of its records.
pub open spec fn prepend(seen: Seq<Mol2View>, r: Result<Seq<Mol2View>, Mol2Error>) -> Result<
    Seq<Mol2View>,
    Mol2Error,
> {
    match r {
        Ok(rest) => Ok(seen + rest),
        Err(e) => Err(e),
    }
}

pub proof fn lemma_prepend_push(
    seen: Seq<Mol2View>,
    v: Mol2View,
    r: Result<Seq<Mol2View>, Mol2Error>,
)
    ensures
        prepend(seen, prepend(seq![v], r)) == prepend(seen.push(v), r),
{
    if let Ok(rest) = r {
        assert(seen + (seq![v] + rest) =~= seen.push(v) + rest);
    }
}

proof fn lemma_flatten_split(ls: Seq<Seq<u8>>, i: int, k: int, j: int)
    requires
        0 <= i <= k <= j <= ls.len(),
    ensures
        ls.subrange(i, j).flatten() == ls.subrange(i, k).flatten() + ls.subrange(k, j).flatten(),
{
    vstd::seq_lib::lemma_flatten_concat(ls.subrange(i, k), ls.subrange(k, j));
    assert(ls.subrange(i, k) + ls.subrange(k, j) =~= ls.subrange(i, j));
}

proof fn lemma_scan_text(ls: Seq<Seq<u8>>, i: int, st: ScanState)
    requires
        0 <= i,
    ensures
        scan(ls, i, st) matches Scan::Record(v, j) ==> v.lines == st.rec.lines + ls.subrange(
            i,
            j,
        ).flatten(),
    decreases ls.len() - i,
{
    if i < ls.len() {
        let line = ls[i];
        let (next, st2): (int, ScanState) = match line_kind(line) {
            LineKind::Name(id) => (
                i + 1,
                with_text(ScanState { rec: Mol2View { name: id, ..st.rec }, ..st }, line),
            ),
            LineKind::Energy(Some(u)) => (
                i + 1,
                with_text(
                    ScanState {
                        rec: Mol2View { energy: Energy { units: u as i128 }, ..st.rec },
                        ..st
                    },
                    line,
                ),
            ),
            LineKind::Molecule => (
                i + 3,
                with_text(
                    ScanState {
                        counts: if i + 2 < ls.len() && counts_of(ls[i + 2]).is_some() {
                            counts_of(ls[i + 2]).unwrap()
                        } else {
                            st.counts
                        },
                        ..st
                    },
                    ls.subrange(i, i + 3).flatten(),
                ),
            ),
            LineKind::Section => {
                let c = count_at(st.counts, st.section);
                (
                    i + c + 1,
                    with_text(
                        ScanState { section: st.section + 1, ..st },
                        ls.subrange(i, i + c + 1).flatten(),
                    ),
                )
            },
            _ => (i + 1, with_text(st, line)),
        };
        if let Scan::Record(v, j) = scan(ls, i, st) {
            if next <= ls.len() {
                if next == i + 1 {
                    ls.subrange(i, i + 1).lemma_flatten_one_element();
                    assert(ls.subrange(i, i + 1)[0] == line);
                }
                lemma_scan_text(ls, next, st2);
                lemma_scan_end(ls, next, st2);
                if j > next {
                    lemma_flatten_split(ls, i, next, j);
                    assert(st.rec.lines + ls.subrange(i, next).flatten() + ls.subrange(
                        next,
                        j,
                    ).flatten() =~= st.rec.lines + ls.subrange(i, j).flatten());
                }
            }
        }
    }
}

/// A record's text is, byte for byte, the lines it was read from: when the
/// record that starts at line `i` ends before line `j`, its text is lines
/// `i..j` put together. With `lemma_lines_flatten`, these lines are a slice of
/// the stream itself.
pub proof fn lemma_record_text(ls: Seq<Seq<u8>>, i: int)
    requires
        0 <= i,
    ensures
        next_scan(ls, i) matches Scan::Record(v, j) ==> v.lines == ls.subrange(i, j).flatten(),
{
    lemma_scan_text(ls, i, start_state());
    if let Scan::Record(v, j) = next_scan(ls, i) {
        assert(Seq::<u8>::empty() + ls.subrange(i, j).flatten() =~= ls.subrange(i, j).flatten());
    }
}

/// `r` with its end line moved `d` lines on.
pub open spec fn shift_scan(r: Scan, d: int) -> Scan {
    match r {
        Scan::Record(v, j) => Scan::Record(v, j + d),
        other => other,
    }
}

/// The parser reads lines after a prefix exactly as it reads them alone.
proof fn lemma_scan_shift(p: Seq<Seq<u8>>, s: Seq<Seq<u8>>, i: int, st: ScanState)
    requires
        0 <= i,
    ensures
        scan(p + s, p.len() + i, st) == shift_scan(scan(s, i, st), p.len() as int),
    decreases s.len() - i,
{
    let ls = p + s;
    let k = p.len() + i;
    if i < s.len() {
        assert(ls[k] == s[i]);
        let line = s[i];
        match line_kind(line) {
            LineKind::Name(id) => {
                lemma_scan_shift(
                    p,
                    s,
                    i + 1,
                    with_text(ScanState { rec: Mol2View { name: id, ..st.rec }, ..st }, line),
                );
            },
            LineKind::Energy(Some(u)) => {
                lemma_scan_shift(
                    p,
                    s,
                    i + 1,
                    with_text(
                        ScanState {
                            rec: Mol2View { energy: Energy { units: u as i128 }, ..st.rec },
                            ..st
                        },
                        line,
                    ),
                );
            },
            LineKind::Molecule => {
                if i + 2 < s.len() {
                    assert(ls[k + 2] == s[i + 2]);
                    assert(ls.subrange(k, k + 3) =~= s.subrange(i, i + 3));
                    if let Some(c) = counts_of(s[i + 2]) {
                        let st2 = with_text(
                            ScanState { counts: c, ..st },
                            s.subrange(i, i + 3).flatten(),
                        );
                        lemma_scan_shift(p, s, i + 3, st2);
                    }
                }
            },
            LineKind::Section => {
                let c = count_at(st.counts, st.section);
                if i + c < s.len() {
                    assert(ls.subrange(k, k + c + 1) =~= s.subrange(i, i + c + 1));
                    let st2 = with_text(
                        ScanState { section: st.section + 1, ..st },
                        s.subrange(i, i + c + 1).flatten(),
                    );
                    lemma_scan_shift(p, s, i + c + 1, st2);
                }
            },
            LineKind::Other => {
                lemma_scan_shift(p, s, i + 1, with_text(st, line));
            },
            _ => {},
        }
    }
}

/// Lines after a record's end do not change how it is read.
proof fn lemma_scan_extend(a: Seq<Seq<u8>>, b: Seq<Seq<u8>>, i: int, st: ScanState)
    requires
        0 <= i,
    ensures
        scan(a, i, st) is Record ==> scan(a + b, i, st) == scan(a, i, st),
    decreases a.len() - i,
{
    let ls = a + b;
    if i < a.len() {
        assert(ls[i] == a[i]);
        let line = a[i];
        match line_kind(line) {
            LineKind::Name(id) => {
                lemma_scan_extend(
                    a,
                    b,
                    i + 1,
                    with_text(ScanState { rec: Mol2View { name: id, ..st.rec }, ..st }, line),
                );
            },
            LineKind::Energy(Some(u)) => {
                lemma_scan_extend(
                    a,
                    b,
                    i + 1,
                    with_text(
                        ScanState {
                            rec: Mol2View { energy: Energy { units: u as i128 }, ..st.rec },
                            ..st
                        },
                        line,
                    ),
                );
            },
            LineKind::Molecule => {
                if i + 2 < a.len() {
                    assert(ls[i + 2] == a[i + 2]);
                    assert(ls.subrange(i, i + 3) =~= a.subrange(i, i + 3));
                    if let Some(c) = counts_of(a[i + 2]) {
                        let st2 = with_text(
                            ScanState { counts: c, ..st },
                            a.subrange(i, i + 3).flatten(),
                        );
                        lemma_scan_extend(a, b, i + 3, st2);
                    }
                }
            },
            LineKind::Section => {
                let c = count_at(st.counts, st.section);
                if i + c < a.len() {
                    assert(ls.subrange(i, i + c + 1) =~= a.subrange(i, i + c + 1));
                    let st2 = with_text(
                        ScanState { section: st.section + 1, ..st },
                        a.subrange(i, i + c + 1).flatten(),
                    );
                    lemma_scan_extend(a, b, i + c + 1, st2);
                }
            },
            LineKind::Other => {
                lemma_scan_extend(a, b, i + 1, with_text(st, line));
            },
            _ => {},
        }
    }
}

proof fn lemma_records_shift(p: Seq<Seq<u8>>, s: Seq<Seq<u8>>, i: int)
    requires
        0 <= i,
    ensures
        records_from(p + s, p.len() + i) == records_from(s, i),
    decreases s.len() - i,
{
    lemma_scan_shift(p, s, i, start_state());
    lemma_scan_end(s, i, start_state());
    if let Scan::Record(v, j) = next_scan(s, i) {
        lemma_records_shift(p, s, j);
        assert(p.len() + j == (p.len() + i) + (j - i));
    }
}

/// How many lines of `ls` are `Name:` headers.
pub open spec fn name_line_count(ls: Seq<Seq<u8>>) -> nat
    decreases ls.len(),
{
    if ls.len() == 0 {
        0
    } else {
        name_line_count(ls.drop_last()) + if line_kind(ls.last()) is Name {
            1nat
        } else {
            0nat
        }
    }
}

proof fn lemma_name_line_count_concat(a: Seq<Seq<u8>>, b: Seq<Seq<u8>>)
    ensures
        name_line_count(a + b) == name_line_count(a) + name_line_count(b),
    decreases b.len(),
{
    if b.len() == 0 {
        assert(a + b =~= a);
    } else {
        lemma_name_line_count_concat(a, b.drop_last());
        assert((a + b).drop_last() =~= a + b.drop_last());
        assert((a + b).last() == b.last());
    }
}

/// A block of lines that makes one well-formed record: read alone from its
/// first line, it is one record that ends exactly at its last line, and it
/// holds exactly one `Name:` header.
pub open spec fn is_record_block(b: Seq<Seq<u8>>) -> bool {
    &&& next_scan(b, 0) matches Scan::Record(_, j) && j == b.len()
    &&& name_line_count(b) == 1
}

/// In a stream made of well-formed records one after the other, the parser
/// yields one record per block, so as many records as the stream holds
/// `Name:` header lines.
pub proof fn lemma_records_count_names(blocks: Seq<Seq<Seq<u8>>>)
    requires
        forall|k: int| 0 <= k < blocks.len() ==> is_record_block(#[trigger] blocks[k]),
    ensures
        records_from(blocks.flatten(), 0) is Ok,
        records_from(blocks.flatten(), 0)->Ok_0.len() == blocks.len(),
        name_line_count(blocks.flatten()) == blocks.len(),
    decreases blocks.len(),
{
    if blocks.len() == 0 {
        assert(next_scan(blocks.flatten(), 0) == Scan::Exhausted);
    } else {
        let b0 = blocks[0];
        let rest = blocks.drop_first();
        assert forall|k: int| 0 <= k < rest.len() implies is_record_block(#[trigger] rest[k]) by {
            assert(rest[k] == blocks[k + 1]);
        }
        lemma_records_count_names(rest);
        let r = rest.flatten();
        assert(blocks.flatten() == b0 + r);
        assert(is_record_block(b0));
        lemma_scan_end(b0, 0, start_state());
        lemma_scan_extend(b0, r, 0, start_state());
        lemma_records_shift(b0, r, 0);
        assert(b0.len() + 0 == b0.len());
        lemma_name_line_count_concat(b0, r);
    }
}

/// One pull, as `records_from` sees it.
pub proof fn lemma_records_step(ls: Seq<Seq<u8>>, p: int)
    ensures
        match next_scan(ls, p) {
            Scan::Exhausted => records_from(ls, p) == Ok::<Seq<Mol2View>, Mol2Error>(
                Seq::empty(),
            ),
            Scan::Malformed(e) => records_from(ls, p) == Err::<Seq<Mol2View>, Mol2Error>(e),
            Scan::Record(v, j) => {
                &&& p < j <= ls.len()
                &&& records_from(ls, p) == prepend(seq![v], records_from(ls, j))
            },
        },
        records_from(ls, ls.len() as int) == Ok::<Seq<Mol2View>, Mol2Error>(Seq::empty()),
{
    lemma_scan_end(ls, p, start_state());
    if let Scan::Record(v, j) = next_scan(ls, p) {
        if let Ok(rest) = records_from(ls, j) {
            assert(seq![v] + rest == seq![v] + rest);
        }
    }
    assert(next_scan(ls, ls.len() as int) == Scan::Exhausted);
}

/// The record that starts at line `start`, and the line after it.
fn read_record(lines: &Vec<Vec<u8>>, start: usize) -> (r: (Result<Option<Mol2>, Mol2Error>, usize))
    ensures
        match next_scan(views_of(lines@), start as int) {
            Scan::Exhausted => {
                &&& r.0 == Ok::<Option<Mol2>, Mol2Error>(None)
                &&& r.1 == lines@.len()
            },
            Scan::Malformed(e) => {
                &&& r.0 == Err::<Option<Mol2>, Mol2Error>(e)
                &&& r.1 == lines@.len()
            },
            Scan::Record(v, j) => {
                &&& r.0.is_ok() && r.0.unwrap().is_some()
                &&& r.0.unwrap().unwrap()@ == v
                &&& r.1 == j
            },
        },
        r.0 matches Ok(Some(m)) ==> m@.energy.wf(),
{
    let ghost ls = views_of(lines@);
    let keys = Keys::new();
    let n = lines.len();
    let mut rec = Mol2::new();
    let mut section: usize = 0;
    let mut counts: Vec<u8> = Vec::new();
    let mut i: usize = start;
    assert(rec@ == empty_record());
    assert(counts@ =~= Seq::<u8>::empty());
    while i < n
        invariant
            n == lines@.len(),
            ls == views_of(lines@),
            keys.wf(),
            section <= i,
            rec@.energy.wf(),
            next_scan(ls, start as int) == scan(
                ls,
                i as int,
                ScanState { rec: rec@, section: section as nat, counts: counts@ },
            ),
        decreases n - i,
    {
        let class = classify(lines[i].as_slice(), &keys);
        assert(ls[i as int] == lines@[i as int]@);
        match class {
            LineClass::Name(id) => {
                rec.add_name(id);
                rec.add_line(lines[i].as_slice());
                i = i + 1;
            },
            LineClass::Energy(None) => {
                return (Err(Mol2Error::MalformedEnergy), n);
            },
            LineClass::Energy(Some(e)) => {
                rec.add_energy(e);
                rec.add_line(lines[i].as_slice());
                i = i + 1;
            },
            LineClass::Molecule => {
                if n - i <= 2 {
                    return (Ok(None), n);
                }
                assert(ls[i + 2] == lines@[i + 2]@);
                match parse_counts(lines[i + 2].as_slice()) {
                    None => {
                        return (Err(Mol2Error::MalformedCount), n);
                    },
                    Some(c) => {
                        append_lines(&mut rec.lines, lines, i, i + 3);
                        counts = c;
                        i = i + 3;
                        if section > 0 && (section >= counts.len() || counts[section] == 0) {
                            return (Ok(Some(rec)), i);
                        }
                    },
                }
            },
            LineClass::Section => {
                let c: usize = if section < counts.len() {
                    counts[section] as usize
                } else {
                    0
                };
                if c >= n - i {
                    return (Ok(None), n);
                }
                append_lines(&mut rec.lines, lines, i, i + c + 1);
                section = section + 1;
                i = i + c + 1;
                if section >= counts.len() || counts[section] == 0 {
                    return (Ok(Some(rec)), i);
                }
            },
            LineClass::Other => {
                rec.add_line(lines[i].as_slice());
                i = i + 1;
            },
        }
    }
    (Ok(None), n)
}

} // verus!
