//! Query tables: the ids a filter run accepts, with or without a target
//! energy for each.
//!
//! A table is read from plain text, one entry per line, in whitespace
//! separated columns. The first line that holds any column decides the shape:
//! one column gives a set of ids, two give a map from id to target energy.
//!
//! The tables hash ids into buckets themselves: vstd specifies std's
//! `HashSet` and `HashMap` only for keys that obey its key model, which it
//! grants to integers, `bool` and boxes of them, never to a byte vector, so
//! lookups by id bytes in those types would prove nothing.
use vstd::prelude::*;
use crate::decimal::{decimal_units, Energy};
use crate::mol2::{Mol2Error, views_of};
use crate::text::{
    bytes_equal, lines_of, slice_to_vec, split_lines, split_tokens, tokens, trim, trimmed,
};

verus! {

/// Number of buckets a table spreads its ids over.
pub open spec fn bucket_count() -> nat {
    4096
}

/// A hash of an id: its bytes read as a base-31 number modulo 1000003.
pub open spec fn name_hash(s: Seq<u8>) -> nat
    decreases s.len(),
{
    if s.len() == 0 {
        0
    } else {
        (name_hash(s.drop_last()) * 31 + s.last() as nat) % 1000003
    }
}

/// The bucket that holds `s`.
pub open spec fn bucket_of(s: Seq<u8>) -> int {
    (name_hash(s) % bucket_count()) as int
}

fn bucket_index(s: &[u8]) -> (r: usize)
    ensures
        r == bucket_of(s@),
        r < bucket_count(),
{
    let mut h: u64 = 0;
    let mut i: usize = 0;
    assert(s@.subrange(0, 0) =~= Seq::<u8>::empty());
    while i < s.len()
        invariant
            i <= s@.len(),
            h == name_hash(s@.subrange(0, i as int)),
            h < 1000003,
        decreases s@.len() - i,
    {
        assert(s@.subrange(0, i + 1).drop_last() =~= s@.subrange(0, i as int));
        h = (h * 31 + s[i] as u64) % 1000003;
        i = i + 1;
    }
    assert(s@.subrange(0, i as int) =~= s@);
    (h % 4096) as usize
}

fn empty_buckets<T>() -> (r: Vec<Vec<T>>)
    ensures
        r@.len() == bucket_count(),
        forall|b: int| 0 <= b < r@.len() ==> (#[trigger] r@[b])@.len() == 0,
{
    let mut r: Vec<Vec<T>> = Vec::new();
    let mut i: usize = 0;
    while i < 4096
        invariant
            i <= 4096,
            r@.len() == i,
            forall|b: int| 0 <= b < r@.len() ==> (#[trigger] r@[b])@.len() == 0,
        decreases 4096 - i,
    {
        r.push(Vec::new());
        i = i + 1;
    }
    r
}

/// A set of ids, spread over buckets by `bucket_of`.
pub struct NameSet {
    buckets: Vec<Vec<Vec<u8>>>,
}

impl View for NameSet {
    type V = Set<Seq<u8>>;

    closed spec fn view(&self) -> Set<Seq<u8>> {
        Set::new(
            |x: Seq<u8>|
                exists|k: int|
                    0 <= k < self.buckets@[bucket_of(x)]@.len() && self.buckets@[bucket_of(
                        x,
                    )]@[k]@ == x,
        )
    }
}

impl NameSet {
    /// There is one bucket for each value of `bucket_of`.
    pub closed spec fn wf(&self) -> bool {
        self.buckets@.len() == bucket_count()
    }

    pub fn new() -> (r: NameSet)
        ensures
            r@ == Set::<Seq<u8>>::empty(),
            r.wf(),
    {
        let r = NameSet { buckets: empty_buckets() };
        assert(r@ =~= Set::<Seq<u8>>::empty());
        r
    }

    pub fn insert(&mut self, name: Vec<u8>)
        requires
            old(self).wf(),
        ensures
            final(self)@ == old(self)@.insert(name@),
            final(self).wf(),
    {
        let ghost v = name@;
        let b = bucket_index(name.as_slice());
        let mut bucket = Vec::new();
        self.buckets.set_and_swap(b, &mut bucket);
        let ghost old_bucket = bucket@;
        bucket.push(name);
        self.buckets.set(b, bucket);
        proof {
            assert(old_bucket == old(self).buckets@[b as int]@);
            assert forall|x: Seq<u8>| final(self)@.contains(x) <==> old(self)@.insert(v).contains(
                x,
            ) by {
                if bucket_of(x) == b {
                    if x == v {
                        assert(self.buckets@[b as int]@[old_bucket.len() as int]@ == x);
                    }
                    if old(self)@.contains(x) {
                        let k = choose|k: int|
                            0 <= k < old_bucket.len() && old_bucket[k]@ == x;
                        assert(self.buckets@[b as int]@[k]@ == x);
                    }
                    if final(self)@.contains(x) {
                        let k = choose|k: int|
                            0 <= k < self.buckets@[b as int]@.len() && self.buckets@[b as int]@[k]@
                                == x;
                        if k < old_bucket.len() {
                            assert(old(self).buckets@[b as int]@[k]@ == x);
                        }
                    }
                } else {
                    assert(self.buckets@[bucket_of(x)] == old(self).buckets@[bucket_of(x)]);
                }
            }
            assert(final(self)@ =~= old(self)@.insert(v));
        }
    }

    pub fn contains(&self, name: &[u8]) -> (r: bool)
        requires
            self.wf(),
        ensures
            r == self@.contains(name@),
    {
        let b = bucket_index(name);
        let bucket = &self.buckets[b];
        let mut k: usize = 0;
        while k < bucket.len()
            invariant
                k <= bucket@.len(),
                self.wf(),
                b == bucket_of(name@),
                b < bucket_count(),
                *bucket == self.buckets@[b as int],
                forall|j: int| 0 <= j < k ==> bucket@[j]@ != name@,
            decreases bucket@.len() - k,
        {
            if bytes_equal(bucket[k].as_slice(), name) {
                return true;
            }
            k = k + 1;
        }
        false
    }
}

/// The map that writing `entries[..n]` in order gives; a later entry for an
/// id replaces an earlier one.
pub open spec fn entries_map(entries: Seq<(Seq<u8>, Energy)>, n: int) -> Map<Seq<u8>, Energy>
    decreases n,
{
    if n <= 0 {
        Map::empty()
    } else {
        entries_map(entries, n - 1).insert(entries[n - 1].0, entries[n - 1].1)
    }
}

pub open spec fn entry_views(es: Seq<(Vec<u8>, Energy)>) -> Seq<(Seq<u8>, Energy)> {
    es.map_values(|e: (Vec<u8>, Energy)| (e.0@, e.1))
}

/// A map from id to target energy; each bucket keeps its entries in the
/// order they were written.
pub struct ScoreTable {
    buckets: Vec<Vec<(Vec<u8>, Energy)>>,
}

impl ScoreTable {
    /// The entries written to bucket `b`, in order.
    pub closed spec fn bucket_map(&self, b: int) -> Map<Seq<u8>, Energy> {
        entries_map(entry_views(self.buckets@[b]@), self.buckets@[b]@.len() as int)
    }

    /// There is one bucket for each value of `bucket_of`, and every target
    /// energy is within the bound.
    pub closed spec fn wf(&self) -> bool {
        &&& self.buckets@.len() == bucket_count()
        &&& forall|b: int, k: int|
            0 <= b < self.buckets@.len() && 0 <= k < self.buckets@[b]@.len() ==> (
            #[trigger] self.buckets@[b]@[k]).1.wf()
    }
}

impl View for ScoreTable {
    type V = Map<Seq<u8>, Energy>;

    closed spec fn view(&self) -> Map<Seq<u8>, Energy> {
        Map::new(
            |x: Seq<u8>| self.bucket_map(bucket_of(x)).contains_key(x),
            |x: Seq<u8>| self.bucket_map(bucket_of(x))[x],
        )
    }
}

proof fn lemma_entries_map_absent(entries: Seq<(Seq<u8>, Energy)>, n: int, key: Seq<u8>)
    requires
        0 <= n <= entries.len(),
        forall|j: int| 0 <= j < n ==> (#[trigger] entries[j]).0 != key,
    ensures
        !entries_map(entries, n).contains_key(key),
    decreases n,
{
    if n > 0 {
        lemma_entries_map_absent(entries, n - 1, key);
    }
}

proof fn lemma_entries_map_last(entries: Seq<(Seq<u8>, Energy)>, n: int, i: int)
    requires
        0 <= i < n <= entries.len(),
        forall|j: int| i < j < n ==> (#[trigger] entries[j]).0 != entries[i].0,
    ensures
        entries_map(entries, n).contains_key(entries[i].0),
        entries_map(entries, n)[entries[i].0] == entries[i].1,
    decreases n,
{
    if n - 1 > i {
        lemma_entries_map_last(entries, n - 1, i);
    }
}

proof fn lemma_entries_map_prefix(
    es: Seq<(Seq<u8>, Energy)>,
    prefix: Seq<(Seq<u8>, Energy)>,
    n: int,
)
    requires
        0 <= n <= es.len(),
        prefix == es.subrange(0, n),
    ensures
        entries_map(es, n) == entries_map(prefix, n),
    decreases n,
{
    if n > 0 {
        lemma_entries_map_prefix(es, es.subrange(0, n - 1), n - 1);
        lemma_entries_map_prefix(prefix, prefix.subrange(0, n - 1), n - 1);
        assert(es.subrange(0, n - 1) =~= prefix.subrange(0, n - 1));
    }
}

impl ScoreTable {
    pub fn new() -> (r: ScoreTable)
        ensures
            r@ == Map::<Seq<u8>, Energy>::empty(),
            r.wf(),
    {
        let r = ScoreTable { buckets: empty_buckets() };
        assert(r@ =~= Map::<Seq<u8>, Energy>::empty());
        r
    }

    /// Sets the target energy of `name`, replacing an earlier one.
    pub fn insert(&mut self, name: Vec<u8>, energy: Energy)
        requires
            old(self).wf(),
            energy.wf(),
        ensures
            final(self)@ == old(self)@.insert(name@, energy),
            final(self).wf(),
    {
        let ghost v = name@;
        let b = bucket_index(name.as_slice());
        let mut bucket = Vec::new();
        self.buckets.set_and_swap(b, &mut bucket);
        let ghost old_bucket = bucket@;
        bucket.push((name, energy));
        self.buckets.set(b, bucket);
        proof {
            assert(old_bucket == old(self).buckets@[b as int]@);
            let es = entry_views(self.buckets@[b as int]@);
            let olds = entry_views(old_bucket);
            assert(es.subrange(0, es.len() - 1) =~= olds);
            lemma_entries_map_prefix(es, olds, es.len() - 1);
            assert(es[es.len() - 1] == (v, energy));
            assert(self.bucket_map(b as int) == old(self).bucket_map(b as int).insert(v, energy));
            assert forall|x: Seq<u8>| bucket_of(x) != b implies self.bucket_map(bucket_of(x))
                == old(self).bucket_map(bucket_of(x)) by {
                assert(self.buckets@[bucket_of(x)] == old(self).buckets@[bucket_of(x)]);
            }
            assert(final(self)@ =~= old(self)@.insert(v, energy));
            assert forall|c: int, k: int|
                0 <= c < self.buckets@.len() && 0 <= k < self.buckets@[c]@.len() implies (
                #[trigger] self.buckets@[c]@[k]).1.wf() by {
                if c != b || k < old_bucket.len() {
                    assert(self.buckets@[c]@[k] == old(self).buckets@[c]@[k]);
                }
            }
        }
    }

    /// The target energy of `name`, if it has one.
    pub fn get(&self, name: &[u8]) -> (r: Option<Energy>)
        requires
            self.wf(),
        ensures
            r.is_some() == self@.contains_key(name@),
            r.is_some() ==> r.unwrap() == self@[name@] && r.unwrap().wf(),
    {
        let b = bucket_index(name);
        let bucket = &self.buckets[b];
        let ghost es = entry_views(bucket@);
        let mut k: usize = bucket.len();
        while k > 0
            invariant
                k <= bucket@.len(),
                self.wf(),
                b == bucket_of(name@),
                b < bucket_count(),
                *bucket == self.buckets@[b as int],
                es == entry_views(bucket@),
                forall|j: int| k <= j < bucket@.len() ==> (#[trigger] es[j]).0 != name@,
            decreases k,
        {
            if bytes_equal(bucket[k - 1].0.as_slice(), name) {
                proof {
                    assert(es[k - 1] == (bucket@[k - 1].0@, bucket@[k - 1].1));
                    lemma_entries_map_last(es, es.len() as int, k - 1);
                    assert(self.buckets@[b as int]@[k - 1].1.wf());
                }
                return Some(bucket[k - 1].1);
            }
            k = k - 1;
        }
        proof {
            lemma_entries_map_absent(es, es.len() as int, name@);
        }
        None
    }
}

proof fn lemma_score_map_err(ls: Seq<Seq<u8>>, f: int, j: int, k: int)
    requires
        f <= j <= k,
        score_map(ls, f, j).is_err(),
    ensures
        score_map(ls, f, k) == score_map(ls, f, j),
    decreases k - j,
{
    if k > j {
        lemma_score_map_err(ls, f, j, k - 1);
    }
}

/// What a loaded table holds.
pub enum QueryView {
    /// Ids with their target energies.
    WithScore(Map<Seq<u8>, Energy>),
    /// Ids alone.
    WithoutScore(Set<Seq<u8>>),
}

/// A loaded query table, in one of its two shapes.
pub enum QueryFormat {
    WithScore(ScoreTable),
    WithoutScore(NameSet),
}

impl View for QueryFormat {
    type V = QueryView;

    open spec fn view(&self) -> QueryView {
        match self {
            QueryFormat::WithScore(t) => QueryView::WithScore(t@),
            QueryFormat::WithoutScore(s) => QueryView::WithoutScore(s@),
        }
    }
}

impl QueryFormat {
    pub open spec fn wf(&self) -> bool {
        match self {
            QueryFormat::WithScore(t) => t.wf(),
            QueryFormat::WithoutScore(s) => s.wf(),
        }
    }
}

/// The first line at or after `i` that holds a column (or the line count).
pub open spec fn first_data_line(ls: Seq<Seq<u8>>, i: int) -> int
    decreases ls.len() - i,
{
    if 0 <= i < ls.len() && tokens(ls[i]).len() == 0 {
        first_data_line(ls, i + 1)
    } else {
        i
    }
}

/// The trimmed lines `f..j`, as a set of ids.
pub open spec fn id_set(ls: Seq<Seq<u8>>, f: int, j: int) -> Set<Seq<u8>> {
    Set::new(|x: Seq<u8>| exists|k: int| f <= k < j && x == trim(ls[k]))
}

/// The map that lines `f..j` give, each read as an id and an energy, or the
/// error of the first line that is not.
pub open spec fn score_map(ls: Seq<Seq<u8>>, f: int, j: int) -> Result<
    Map<Seq<u8>, Energy>,
    Mol2Error,
>
    decreases j - f,
{
    if j <= f {
        Ok(Map::empty())
    } else {
        match score_map(ls, f, j - 1) {
            Err(e) => Err(e),
            Ok(m) => {
                let t = tokens(ls[j - 1]);
                if t.len() < 2 {
                    Err(Mol2Error::MalformedQuery)
                } else {
                    match decimal_units(t[1]) {
                        None => Err(Mol2Error::MalformedQueryEnergy),
                        Some(u) => Ok(m.insert(t[0], Energy { units: u as i128 })),
                    }
                }
            },
        }
    }
}

/// The table that the lines `ls` describe. The first line with a column
/// decides the shape: with one column every line from it on, trimmed, is an
/// id; with two, every line from it on gives an id (its first column) and a
/// target energy (its second), a later line for an id replacing an earlier
/// one, and a line with fewer than two columns or an energy that is not a
/// number is an error. Any other column count on the deciding line, or no
/// line with a column at all, is an error.
pub open spec fn load_spec(ls: Seq<Seq<u8>>) -> Result<QueryView, Mol2Error> {
    let f = first_data_line(ls, 0);
    if f >= ls.len() {
        Err(Mol2Error::MalformedQuery)
    } else {
        let w = tokens(ls[f]).len();
        if w == 1 {
            Ok(QueryView::WithoutScore(id_set(ls, f, ls.len() as int)))
        } else if w == 2 {
            match score_map(ls, f, ls.len() as int) {
                Ok(m) => Ok(QueryView::WithScore(m)),
                Err(e) => Err(e),
            }
        } else {
            Err(Mol2Error::MalformedQuery)
        }
    }
}

/// Reads a query table from its text.
pub struct QueryReader {
    lines: Vec<Vec<u8>>,
}

impl QueryReader {
    pub closed spec fn line_seq(&self) -> Seq<Seq<u8>> {
        views_of(self.lines@)
    }

    pub fn new(text: &[u8]) -> (r: QueryReader)
        ensures
            r.line_seq() == lines_of(text@),
    {
        let r = QueryReader { lines: split_lines(text) };
        assert(r.line_seq() =~= lines_of(text@));
        r
    }

    /// The table, as `load_spec` describes it.
    pub fn load_queries(&self) -> (r: Result<QueryFormat, Mol2Error>)
        ensures
            match load_spec(self.line_seq()) {
                Ok(v) => r.is_ok() && r.unwrap()@ == v && r.unwrap().wf(),
                Err(e) => r == Err::<QueryFormat, Mol2Error>(e),
            },
    {
        let ghost ls = self.line_seq();
        let n = self.lines.len();
        let mut f: usize = 0;
        while f < n && split_tokens(self.lines[f].as_slice()).len() == 0
            invariant
                f <= n == self.lines@.len(),
                ls == self.line_seq(),
                first_data_line(ls, 0) == first_data_line(ls, f as int),
            decreases n - f,
        {
            assert(ls[f as int] == self.lines@[f as int]@);
            f = f + 1;
        }
        if f >= n {
            return Err(Mol2Error::MalformedQuery);
        }
        assert(ls[f as int] == self.lines@[f as int]@);
        let w = split_tokens(self.lines[f].as_slice()).len();
        assert(first_data_line(ls, 0) == f as int);
        if w == 1 {
            let mut set = NameSet::new();
            let mut j: usize = f;
            assert(id_set(ls, f as int, f as int) =~= Set::<Seq<u8>>::empty());
            while j < n
                invariant
                    f <= j <= n == self.lines@.len(),
                    ls == self.line_seq(),
                    first_data_line(ls, 0) == f as int,
                    tokens(ls[f as int]).len() == 1,
                    set@ == id_set(ls, f as int, j as int),
                    set.wf(),
                decreases n - j,
            {
                let id = trimmed(self.lines[j].as_slice());
                proof {
                    assert(ls[j as int] == self.lines@[j as int]@);
                    assert(id_set(ls, f as int, j + 1) =~= id_set(ls, f as int, j as int).insert(
                        id@,
                    ));
                }
                set.insert(id);
                j = j + 1;
            }
            Ok(QueryFormat::WithoutScore(set))
        } else if w == 2 {
            let mut table = ScoreTable::new();
            let mut j: usize = f;
            while j < n
                invariant
                    f <= j <= n == self.lines@.len(),
                    ls == self.line_seq(),
                    first_data_line(ls, 0) == f as int,
                    tokens(ls[f as int]).len() == 2,
                    table.wf(),
                    score_map(ls, f as int, j as int) == Ok::<Map<Seq<u8>, Energy>, Mol2Error>(
                        table@,
                    ),
                decreases n - j,
            {
                assert(ls[j as int] == self.lines@[j as int]@);
                let toks = split_tokens(self.lines[j].as_slice());
                if toks.len() < 2 {
                    proof {
                        lemma_score_map_err(ls, f as int, j + 1, n as int);
                    }
                    return Err(Mol2Error::MalformedQuery);
                }
                match Energy::parse(toks[1].as_slice()) {
                    None => {
                        proof {
                            lemma_score_map_err(ls, f as int, j + 1, n as int);
                        }
                        return Err(Mol2Error::MalformedQueryEnergy);
                    },
                    Some(e) => {
                        let id_len = toks[0].len();
                        let id = slice_to_vec(toks[0].as_slice(), 0, id_len);
                        assert(toks@[0]@.subrange(0, id_len as int) =~= toks@[0]@);
                        table.insert(id, e);
                    },
                }
                j = j + 1;
            }
            Ok(QueryFormat::WithScore(table))
        } else {
            Err(Mol2Error::MalformedQuery)
        }
    }
}

} // verus!
