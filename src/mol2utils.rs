//! The record-level steps of the three bulk operations: filtering records
//! against a query table, dealing them round-robin into shards, and turning
//! them into rows of a summary table; and the counters each one reports.
use vstd::prelude::*;
use crate::codec::{compress, gzip, gzip_ok};
use crate::decimal::{dec_digits, energy_text, push_dec_digits, Energy};
use crate::mol2::{Mol2, Mol2Error, Mol2Reader, Mol2View, prepend, record_views, records_from};
use crate::mol2::{lemma_prepend_push, lemma_records_step};
use crate::query::{NameSet, QueryFormat, QueryView, ScoreTable};
use crate::text::append_range;

verus! {

/// Whether a record passes a table: its id is in the set, or its id is in
/// the map and its energy is at most `tol` above the target. How far below
/// the target it lies does not matter.
pub open spec fn passes(q: QueryView, rec: Mol2View, tol: Energy) -> bool {
    match q {
        QueryView::WithoutScore(s) => s.contains(rec.name),
        QueryView::WithScore(m) => m.contains_key(rec.name) && rec.energy.units - m[rec.name].units
            <= tol.units,
    }
}

/// The records of `recs` that pass, in order.
pub open spec fn accepted_of(recs: Seq<Mol2View>, q: QueryView, tol: Energy) -> Seq<Mol2View>
    decreases recs.len(),
{
    if recs.len() == 0 {
        Seq::empty()
    } else {
        let a = accepted_of(recs.drop_last(), q, tol);
        if passes(q, recs.last(), tol) {
            a.push(recs.last())
        } else {
            a
        }
    }
}

/// Whether `rec`'s id is in `table`.
pub fn matches_set(rec: &Mol2, table: &NameSet) -> (r: bool)
    requires
        table.wf(),
    ensures
        r == table@.contains(rec@.name),
{
    table.contains(rec.get_name())
}

/// Whether `rec`'s id is in `table` with its energy at most `tol` above the
/// target.
pub fn matches_map(rec: &Mol2, table: &ScoreTable, tol: Energy) -> (r: bool)
    requires
        table.wf(),
        rec@.energy.wf(),
        tol.wf(),
    ensures
        r == (table@.contains_key(rec@.name) && rec@.energy.units - table@[rec@.name].units
            <= tol.units),
{
    proof {
        crate::decimal::lemma_pow10_facts();
    }
    match table.get(rec.get_name()) {
        Some(target) => rec.get_energy().units - target.units <= tol.units,
        None => false,
    }
}

/// Whether `rec` passes `query`.
pub fn matches_query(rec: &Mol2, query: &QueryFormat, tol: Energy) -> (r: bool)
    requires
        query.wf(),
        rec@.energy.wf(),
        tol.wf(),
    ensures
        r == passes(query@, rec@, tol),
{
    match query {
        QueryFormat::WithoutScore(s) => matches_set(rec, s),
        QueryFormat::WithScore(t) => matches_map(rec, t, tol),
    }
}

/// What filtering one file gives: how many records it held, and those that
/// passed, in file order.
pub struct FileTally {
    pub processed: usize,
    pub accepted: Vec<Mol2>,
}

/// Filters the records of `reader` from its position on.
pub fn grep_file(reader: &mut Mol2Reader, query: &QueryFormat, tol: Energy) -> (r: Result<
    FileTally,
    Mol2Error,
>)
    requires
        old(reader).wf(),
        query.wf(),
        tol.wf(),
    ensures
        match records_from(old(reader).line_seq(), old(reader).position()) {
            Ok(recs) => {
                &&& r.is_ok()
                &&& r.unwrap().processed == recs.len()
                &&& record_views(r.unwrap().accepted@) == accepted_of(recs, query@, tol)
            },
            Err(e) => r == Err::<FileTally, Mol2Error>(e),
        },
{
    let ghost ls = old(reader).line_seq();
    let ghost first_pos = old(reader).position();
    let mut processed: usize = 0;
    let mut accepted: Vec<Mol2> = Vec::new();
    let ghost mut seen: Seq<Mol2View> = Seq::empty();
    assert(seen + Seq::<Mol2View>::empty() =~= seen);
    assert(record_views(accepted@) =~= accepted_of(seen, query@, tol));
    proof {
        reader.lemma_bounds();
    }
    loop
        invariant
            reader.wf(),
            reader.line_seq() == ls,
            ls == old(reader).line_seq(),
            first_pos == old(reader).position(),
            0 <= first_pos,
            query.wf(),
            tol.wf(),
            records_from(ls, first_pos) == prepend(seen, records_from(ls, reader.position())),
            processed == seen.len(),
            processed <= reader.position() - first_pos,
            record_views(accepted@) == accepted_of(seen, query@, tol),
        ensures
            records_from(ls, first_pos) == Ok::<Seq<Mol2View>, Mol2Error>(seen),
            processed == seen.len(),
            record_views(accepted@) == accepted_of(seen, query@, tol),
        decreases ls.len() - reader.position(),
    {
        let ghost before = reader.position();
        proof {
            lemma_records_step(ls, before);
            reader.lemma_bounds();
        }
        match reader.next_record() {
            Err(e) => {
                return Err(e);
            },
            Ok(None) => {
                assert(seen + Seq::<Mol2View>::empty() =~= seen);
                proof {
                    reader.lemma_bounds();
                }
                break ;
            },
            Ok(Some(rec)) => {
                proof {
                    reader.lemma_bounds();
                }
                let pass = matches_query(&rec, query, tol);
                proof {
                    lemma_prepend_push(seen, rec@, records_from(ls, reader.position()));
                    assert(seen.push(rec@).drop_last() =~= seen);
                    seen = seen.push(rec@);
                }
                if pass {
                    accepted.push(rec);
                }
                assert(record_views(accepted@) =~= accepted_of(seen, query@, tol));
                processed = processed + 1;
            },
        }
    }
    Ok(FileTally { processed, accepted })
}

/// Running totals of a filter run over many files.
pub struct GrepTotals {
    pub processed: u64,
    pub accepted: u64,
}

impl GrepTotals {
    pub fn new() -> (r: GrepTotals)
        ensures
            r.processed == 0 && r.accepted == 0,
    {
        GrepTotals { processed: 0, accepted: 0 }
    }

    /// Adds one file's counts; the totals saturate at `u64::MAX`.
    pub fn add(&mut self, processed: u64, accepted: u64)
        ensures
            final(self).processed == if old(self).processed + processed > u64::MAX {
                u64::MAX as int
            } else {
                old(self).processed + processed
            },
            final(self).accepted == if old(self).accepted + accepted > u64::MAX {
                u64::MAX as int
            } else {
                old(self).accepted + accepted
            },
    {
        self.processed = self.processed.saturating_add(processed);
        self.accepted = self.accepted.saturating_add(accepted);
    }
}

/// A record passes a score table exactly when its energy is at most `tol`
/// above the target: at `target + tol` it passes, `eps > 0` beyond that it
/// fails, and below the target by any `d >= 0` (with `tol >= 0`) it passes.
pub proof fn lemma_match_one_sided(
    m: Map<Seq<u8>, Energy>,
    rec: Mol2View,
    tol: Energy,
    eps: int,
    d: int,
)
    requires
        m.contains_key(rec.name),
    ensures
        rec.energy.units == m[rec.name].units + tol.units ==> passes(
            QueryView::WithScore(m),
            rec,
            tol,
        ),
        eps > 0 && rec.energy.units == m[rec.name].units + tol.units + eps ==> !passes(
            QueryView::WithScore(m),
            rec,
            tol,
        ),
        d >= 0 && tol.units >= 0 && rec.energy.units == m[rec.name].units - d ==> passes(
            QueryView::WithScore(m),
            rec,
            tol,
        ),
{
}

pub open spec fn nat_sum(s: Seq<nat>) -> nat
    decreases s.len(),
{
    if s.len() == 0 {
        0
    } else {
        nat_sum(s.drop_last()) + s.last()
    }
}

proof fn lemma_nat_sum_remove(s: Seq<nat>, k: int)
    requires
        0 <= k < s.len(),
    ensures
        nat_sum(s) == nat_sum(s.remove(k)) + s[k],
    decreases s.len(),
{
    if k < s.len() - 1 {
        lemma_nat_sum_remove(s.drop_last(), k);
        assert(s.remove(k).drop_last() =~= s.drop_last().remove(k));
        assert(s.remove(k).last() == s.last());
    } else {
        assert(s.remove(k) =~= s.drop_last());
    }
}

/// A filter run's totals are sums of per-file counts, so they do not depend
/// on the order in which workers hand in their files' counts: two runs over
/// the same files, whose counts arrive in any two orders, report the same
/// totals.
pub proof fn lemma_totals_order_free(a: Seq<nat>, b: Seq<nat>)
    requires
        a.to_multiset() == b.to_multiset(),
    ensures
        nat_sum(a) == nat_sum(b),
    decreases a.len(),
{
    a.to_multiset_ensures();
    b.to_multiset_ensures();
    if a.len() == 0 {
        assert(b.len() == 0);
    } else {
        let x = a.last();
        let a2 = a.drop_last();
        a2.to_multiset_ensures();
        assert(a2.push(x) =~= a);
        assert(a.to_multiset().count(x) > 0);
        assert(b.contains(x));
        let k = choose|k: int| 0 <= k < b.len() && b[k] == x;
        let b2 = b.remove(k);
        assert(a2.to_multiset() =~= b2.to_multiset());
        lemma_totals_order_free(a2, b2);
        lemma_nat_sum_remove(b, k);
    }
}

/// How many of the first `total` records round-robin dealing puts into
/// shard `i` of `n`.
pub open spec fn round_robin_count(total: int, n: int, i: int) -> int {
    total / n + if i < total % n {
        1int
    } else {
        0int
    }
}

pub open spec fn sum_of(s: Seq<usize>) -> int
    decreases s.len(),
{
    if s.len() == 0 {
        0
    } else {
        sum_of(s.drop_last()) + s.last()
    }
}

/// Deals records round-robin into `num_files` shards, in the order they come.
pub struct Partitioner {
    num_files: usize,
    total: usize,
    counts: Vec<usize>,
}

impl Partitioner {
    pub closed spec fn shards(&self) -> int {
        self.num_files as int
    }

    /// How many records were dealt.
    pub closed spec fn total(&self) -> int {
        self.total as int
    }

    /// How many records each shard got.
    pub closed spec fn count_seq(&self) -> Seq<usize> {
        self.counts@
    }

    pub open spec fn wf(&self) -> bool {
        &&& self.shards() >= 1
        &&& self.count_seq().len() == self.shards()
        &&& forall|i: int|
            0 <= i < self.shards() ==> #[trigger] self.count_seq()[i] == round_robin_count(
                self.total(),
                self.shards(),
                i,
            )
    }

    pub fn new(num_files: usize) -> (r: Partitioner)
        requires
            num_files >= 1,
        ensures
            r.wf(),
            r.shards() == num_files,
            r.total() == 0,
    {
        let counts: Vec<usize> = vec![0; num_files];
        let r = Partitioner { num_files, total: 0, counts };
        assert forall|i: int| 0 <= i < r.shards() implies #[trigger] r.count_seq()[i]
            == round_robin_count(r.total(), r.shards(), i) by {
            assert(0int / (num_files as int) == 0) by (nonlinear_arith)
                requires
                    num_files >= 1,
            ;
            assert(0int % (num_files as int) == 0) by (nonlinear_arith)
                requires
                    num_files >= 1,
            ;
        }
        r
    }

    /// The shard of the next record: the number dealt so far modulo the
    /// shard count.
    pub fn route(&mut self) -> (r: usize)
        requires
            old(self).wf(),
            old(self).total() < usize::MAX,
        ensures
            final(self).wf(),
            r == old(self).total() % old(self).shards(),
            final(self).shards() == old(self).shards(),
            final(self).total() == old(self).total() + 1,
            final(self).count_seq() == old(self).count_seq().update(
                r as int,
                (old(self).count_seq()[r as int] + 1) as usize,
            ),
    {
        let n = self.num_files;
        let t = self.total;
        let r = t % n;
        proof {
            let q = t as int / n as int;
            let m = t as int % n as int;
            vstd::arithmetic::div_mod::lemma_fundamental_div_mod(t as int, n as int);
            assert(0 <= m < n);
            assert(0 <= q);
            assert(q <= t) by (nonlinear_arith)
                requires
                    t as int == n * q + m,
                    n >= 1,
                    0 <= m,
                    0 <= q,
            ;
            assert(q * n == n * q) by (nonlinear_arith);
            assert((q + 1) * n == n * q + n) by (nonlinear_arith);
            if m + 1 < n {
                vstd::arithmetic::div_mod::lemma_fundamental_div_mod_converse(
                    t + 1,
                    n as int,
                    q,
                    m + 1,
                );
            } else {
                vstd::arithmetic::div_mod::lemma_fundamental_div_mod_converse(
                    t + 1,
                    n as int,
                    q + 1,
                    0,
                );
            }
        }
        let c = self.counts[r];
        self.counts.set(r, c + 1);
        self.total = t + 1;
        proof {
            assert forall|i: int| 0 <= i < self.shards() implies #[trigger] self.count_seq()[i]
                == round_robin_count(self.total(), self.shards(), i) by {
                vstd::arithmetic::div_mod::lemma_fundamental_div_mod(t as int, n as int);
                let q = t as int / n as int;
                let m = t as int % n as int;
                assert(q * n == n * q) by (nonlinear_arith);
                assert((q + 1) * n == n * q + n) by (nonlinear_arith);
                if m + 1 < n {
                    vstd::arithmetic::div_mod::lemma_fundamental_div_mod_converse(
                        t + 1,
                        n as int,
                        q,
                        m + 1,
                    );
                } else {
                    vstd::arithmetic::div_mod::lemma_fundamental_div_mod_converse(
                        t + 1,
                        n as int,
                        q + 1,
                        0,
                    );
                }
            }
        }
        r
    }

    /// How many records each shard got.
    pub fn counts(&self) -> (r: Vec<usize>)
        ensures
            r@ == self.count_seq(),
    {
        let mut out: Vec<usize> = Vec::new();
        let mut i: usize = 0;
        while i < self.counts.len()
            invariant
                i <= self.counts@.len(),
                out@ == self.counts@.subrange(0, i as int),
            decreases self.counts@.len() - i,
        {
            out.push(self.counts[i]);
            i = i + 1;
            assert(out@ =~= self.counts@.subrange(0, i as int));
        }
        assert(self.counts@.subrange(0, i as int) =~= self.counts@);
        out
    }
}

proof fn lemma_round_robin_prefix(s: Seq<usize>, total: int, n: int, k: int)
    requires
        n >= 1,
        total >= 0,
        0 <= k <= s.len() <= n,
        forall|i: int| 0 <= i < s.len() ==> #[trigger] s[i] == round_robin_count(total, n, i),
    ensures
        sum_of(s.subrange(0, k)) == k * (total / n) + if k < total % n {
            k
        } else {
            total % n
        },
    decreases k,
{
    if k > 0 {
        lemma_round_robin_prefix(s, total, n, k - 1);
        assert(s.subrange(0, k).drop_last() =~= s.subrange(0, k - 1));
        assert(s.subrange(0, k).last() == s[k - 1]);
        assert(s[k - 1] == round_robin_count(total, n, k - 1));
        assert(k * (total / n) == (k - 1) * (total / n) + total / n) by (nonlinear_arith);
    } else {
        vstd::arithmetic::div_mod::lemma_mod_bound(total, n);
        assert(s.subrange(0, 0) =~= Seq::<usize>::empty());
        assert(0 * (total / n) == 0);
    }
}

/// Round-robin dealing loses and invents no record: the shard counts add up
/// to the number of records dealt.
pub proof fn lemma_shard_counts_sum(p: &Partitioner)
    requires
        p.wf(),
    ensures
        sum_of(p.count_seq()) == p.total(),
{
    let s = p.count_seq();
    let n = p.shards();
    let t = p.total();
    vstd::arithmetic::div_mod::lemma_fundamental_div_mod(t, n);
    lemma_round_robin_prefix(s, t, n, n);
    assert(s.subrange(0, n) =~= s);
    assert(n * (t / n) == (t / n) * n) by (nonlinear_arith);
}

/// Round-robin dealing keeps the shards level: two shard counts differ by at
/// most one, and earlier shards never hold fewer records than later ones.
pub proof fn lemma_shard_counts_balanced(p: &Partitioner, i: int, j: int)
    requires
        p.wf(),
        0 <= i <= j < p.shards(),
    ensures
        0 <= p.count_seq()[i] - p.count_seq()[j] <= 1,
{
    assert(p.count_seq()[i] == round_robin_count(p.total(), p.shards(), i));
    assert(p.count_seq()[j] == round_robin_count(p.total(), p.shards(), j));
}

/// `ligand_id<TAB>name<TAB>energy<LF>`
pub open spec fn header_text() -> Seq<u8> {
    seq![
        108u8, 105u8, 103u8, 97u8, 110u8, 100u8, 95u8, 105u8, 100u8, 9u8, 110u8, 97u8, 109u8,
        101u8, 9u8, 101u8, 110u8, 101u8, 114u8, 103u8, 121u8, 10u8,
    ]
}

/// One row of the summary table: the row number, the record's id and its
/// energy, tab-separated, ending in a line feed.
pub open spec fn row_text(id: nat, rec: Mol2View) -> Seq<u8> {
    dec_digits(id) + seq![9u8] + rec.name + seq![9u8] + energy_text(rec.energy.units as int)
        + seq![10u8]
}

/// The header line of the summary table.
pub fn table_header() -> (r: Vec<u8>)
    ensures
        r@ == header_text(),
{
    let r: Vec<u8> = vec![
        108, 105, 103, 97, 110, 100, 95, 105, 100, 9, 110, 97, 109, 101, 9, 101, 110, 101, 114,
        103, 121, 10,
    ];
    assert(r@ =~= header_text());
    r
}

/// The row of `rec` under row number `id`.
pub fn table_row(id: u64, rec: &Mol2) -> (r: Vec<u8>)
    ensures
        r@ == row_text(id as nat, rec@),
{
    let mut out: Vec<u8> = Vec::new();
    push_dec_digits(&mut out, id as u128);
    out.push(9);
    let name = rec.get_name();
    append_range(&mut out, name, 0, name.len());
    out.push(9);
    let e = rec.get_energy().to_text();
    append_range(&mut out, e.as_slice(), 0, e.len());
    out.push(10);
    proof {
        assert(name@.subrange(0, name@.len() as int) =~= name@);
        assert(e@.subrange(0, e@.len() as int) =~= e@);
        assert(out@ =~= row_text(id as nat, rec@));
    }
    out
}

/// Numbers rows from zero, one per record, in the order records come.
pub struct Tabulator {
    next_id: u64,
}

impl Tabulator {
    /// How many rows were made.
    pub closed spec fn rows(&self) -> nat {
        self.next_id as nat
    }

    pub fn new() -> (r: Tabulator)
        ensures
            r.rows() == 0,
    {
        Tabulator { next_id: 0 }
    }

    /// The next row: the record under the number of rows made before it.
    pub fn row(&mut self, rec: &Mol2) -> (r: Vec<u8>)
        requires
            old(self).rows() < u64::MAX,
        ensures
            r@ == row_text(old(self).rows(), rec@),
            final(self).rows() == old(self).rows() + 1,
    {
        let r = table_row(self.next_id, rec);
        self.next_id = self.next_id + 1;
        r
    }
}

/// The rows of `recs`, numbered from zero without gaps.
pub fn table_rows(recs: &Vec<Mol2>) -> (r: Vec<Vec<u8>>)
    ensures
        r@.len() == recs@.len(),
        forall|i: int| 0 <= i < r@.len() ==> #[trigger] r@[i]@ == row_text(i as nat, recs@[i]@),
{
    let mut out: Vec<Vec<u8>> = Vec::new();
    let mut i: usize = 0;
    while i < recs.len()
        invariant
            i <= recs@.len(),
            out@.len() == i,
            forall|k: int| 0 <= k < i ==> #[trigger] out@[k]@ == row_text(k as nat, recs@[k]@),
        decreases recs@.len() - i,
    {
        out.push(table_row(i as u64, &recs[i]));
        i = i + 1;
    }
    out
}

/// Cuts an output stream into gzip members: bytes collect until at least
/// `limit` are pending, and then leave as one compressed member. The chunks
/// compressed so far, followed by the pending bytes, are exactly the bytes
/// written, in order; so the members, and the one `finish` makes, hold the
/// written stream cut into consecutive pieces.
pub struct BlockSink {
    pending: Vec<u8>,
    limit: usize,
    written: Ghost<Seq<u8>>,
    chunks: Ghost<Seq<Seq<u8>>>,
}

impl BlockSink {
    /// The bytes written and not yet compressed.
    pub closed spec fn pending(&self) -> Seq<u8> {
        self.pending@
    }

    pub closed spec fn limit(&self) -> nat {
        self.limit as nat
    }

    /// All the bytes written, in order.
    pub closed spec fn written(&self) -> Seq<u8> {
        self.written@
    }

    /// The chunks compressed into members so far, in order.
    pub closed spec fn chunks(&self) -> Seq<Seq<u8>> {
        self.chunks@
    }

    /// The compressed chunks and the pending bytes make up what was written.
    pub closed spec fn wf(&self) -> bool {
        self.chunks@.flatten() + self.pending@ == self.written@
    }

    pub fn new(limit: usize) -> (r: BlockSink)
        ensures
            r.wf(),
            r.pending() == Seq::<u8>::empty(),
            r.written() == Seq::<u8>::empty(),
            r.chunks() == Seq::<Seq<u8>>::empty(),
            r.limit() == limit,
    {
        let r = BlockSink {
            pending: Vec::new(),
            limit,
            written: Ghost(Seq::empty()),
            chunks: Ghost(Seq::empty()),
        };
        assert(r.chunks@.flatten() + r.pending@ =~= r.written@);
        r
    }

    /// Writes `bytes`. Once `limit` or more bytes are pending, they are
    /// compressed into one member, which is returned.
    pub fn push(&mut self, bytes: &[u8]) -> (r: Result<Option<Vec<u8>>, Mol2Error>)
        requires
            old(self).wf(),
        ensures
            final(self).limit() == old(self).limit(),
            (old(self).pending() + bytes@).len() < old(self).limit() ==> {
                &&& r == Ok::<Option<Vec<u8>>, Mol2Error>(None)
                &&& final(self).pending() == old(self).pending() + bytes@
                &&& final(self).chunks() == old(self).chunks()
                &&& final(self).written() == old(self).written() + bytes@
                &&& final(self).wf()
            },
            (old(self).pending() + bytes@).len() >= old(self).limit() ==> {
                &&& r.is_ok() == gzip_ok(old(self).pending() + bytes@)
                &&& match r {
                    Ok(Some(b)) => {
                        &&& b@ == gzip(old(self).pending() + bytes@)
                        &&& final(self).pending() == Seq::<u8>::empty()
                        &&& final(self).chunks() == old(self).chunks().push(
                            old(self).pending() + bytes@,
                        )
                        &&& final(self).written() == old(self).written() + bytes@
                        &&& final(self).wf()
                    },
                    Ok(None) => false,
                    Err(e) => e == Mol2Error::Encode,
                }
            },
    {
        let ghost before = self.pending@;
        append_range(&mut self.pending, bytes, 0, bytes.len());
        assert(bytes@.subrange(0, bytes@.len() as int) =~= bytes@);
        self.written = Ghost(self.written@ + bytes@);
        assert(self.chunks@.flatten() + self.pending@ =~= self.written@);
        if self.pending.len() < self.limit {
            return Ok(None);
        }
        match compress(self.pending.as_slice()) {
            Ok(block) => {
                let ghost chunk = self.pending@;
                self.chunks = Ghost(self.chunks@.push(chunk));
                self.pending = Vec::new();
                proof {
                    old(self).chunks@.lemma_flatten_push(chunk);
                    assert(self.chunks@.flatten() + self.pending@ =~= self.written@);
                }
                Ok(Some(block))
            },
            Err(e) => Err(e),
        }
    }

    /// Compresses what is pending into the last member.
    pub fn finish(self) -> (r: Result<Vec<u8>, Mol2Error>)
        ensures
            r.is_ok() == gzip_ok(self.pending()),
            r matches Ok(b) ==> b@ == gzip(self.pending()),
            r matches Err(e) ==> e == Mol2Error::Encode,
    {
        compress(self.pending.as_slice())
    }
}

/// What a sink has made of its input: the chunks it compressed, then the
/// bytes still pending (the chunk that `finish` compresses), put together
/// are every byte written to it, in order. A filter run writes the accepted
/// records' texts, so its output members hold those texts, byte for byte.
pub proof fn lemma_sink_stream(sink: &BlockSink)
    requires
        sink.wf(),
    ensures
        sink.chunks().flatten() + sink.pending() == sink.written(),
{
}

} // verus!
