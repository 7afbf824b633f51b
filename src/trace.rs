use vstd::prelude::*;
use crate::consolidation::{
    mass, abs_total, is_consolidation, consolidated, lemma_mass_concat, lemma_abs_total_prefix,
    lemma_abs_total_concat, lemma_abs_total_nonneg, lemma_abs_total_sums_fit,
};
use crate::order::KeyValTime;
use crate::batch::{accumulation, OrdBatch, Update, Description, Batch, BatchReader, copy_frontier, copy_updates};
use crate::cursor::BatchCursor;
use crate::lattice::in_advance_of;

verus! {

/// All updates of a run of batches, in batch order.
pub open spec fn all_updates(bs: Seq<OrdBatch>) -> Seq<Update>
    decreases bs.len(),
{
    if bs.len() == 0 {
        Seq::empty()
    } else {
        all_updates(bs.drop_last()) + bs.last().updates@
    }
}

/// Adjacent batches share their boundary: each upper is the next lower.
pub open spec fn contiguous(bs: Seq<OrdBatch>) -> bool {
    forall|i: int| 0 <= i < bs.len() - 1 ==> (#[trigger] bs[i]).desc.upper@ == bs[i + 1].desc.lower@
}

/// `cursor_through(upper)` covers the first `n` batches of `bs`: all of them
/// for an empty `upper`, else up to the first batch whose upper is `upper`.
pub open spec fn is_cut(bs: Seq<OrdBatch>, upper: Seq<u64>, n: int) -> bool {
    &&& 0 <= n <= bs.len()
    &&& upper.len() == 0 ==> n == bs.len()
    &&& upper.len() > 0 ==> n > 0 && bs[n - 1].desc.upper@ == upper && forall|j: int|
        0 <= j < n - 1 ==> (#[trigger] bs[j]).desc.upper@ != upper
}

/// `contents` is the consolidated content of the batches of `bs` up to the
/// clean cut `upper`.
pub open spec fn covers(bs: Seq<OrdBatch>, upper: Seq<u64>, contents: Seq<Update>) -> bool {
    exists|n: int| #[trigger] is_cut(bs, upper, n) && is_consolidation(all_updates(bs.take(n)), contents)
}

/// The two frontiers are the same sequence of times.
pub fn same_frontier(a: &[u64], b: &[u64]) -> (r: bool)
    ensures
        r == (a@ == b@),
{
    if a.len() != b.len() {
        return false;
    }
    let mut i: usize = 0;
    while i < a.len()
        invariant
            i <= a.len(),
            a.len() == b.len(),
            forall|j: int| 0 <= j < i ==> a@[j] == b@[j],
        decreases a.len() - i,
    {
        if a[i] != b[i] {
            return false;
        }
        i += 1;
    }
    assert(a@ =~= b@);
    true
}

/// A trace whose contents may be read, and whose readers say which times
/// they still need told apart.
pub trait TraceReader: Sized {
    spec fn well_formed(&self) -> bool;

    /// The batches of the trace, in order.
    spec fn batch_list(&self) -> Seq<OrdBatch>;

    spec fn advance_spec(&self) -> Seq<u64>;

    spec fn through_spec(&self) -> Seq<u64>;

    /// The contents of the batches up to the clean cut `upper`, as one
    /// batch, with a cursor at its start. An empty `upper` covers every
    /// batch; otherwise `upper` must be the upper frontier of a batch.
    fn cursor_through(&self, upper: &[u64]) -> (r: Option<(BatchCursor, OrdBatch)>)
        requires
            self.well_formed(),
        ensures
            r.is_some() == (upper@.len() == 0 || exists|i: int|
                0 <= i < self.batch_list().len() && (#[trigger] self.batch_list()[i]).desc.upper@ == upper@),
            r matches Some((c, b)) ==> c.is_start() && b.wf() && covers(self.batch_list(), upper@, b.updates@),
    ;

    /// A cursor over the whole trace.
    fn cursor(&self) -> (r: (BatchCursor, OrdBatch))
        requires
            self.well_formed(),
        ensures
            r.0.is_start(),
            r.1.wf(),
            is_consolidation(all_updates(self.batch_list()), r.1.updates@),
    ;

    /// Records that times not in advance of `frontier` need no longer be told
    /// apart.
    fn advance_by(&mut self, frontier: &[u64])
        requires
            old(self).well_formed(),
        ensures
            final(self).well_formed(),
            compacted(old(self).batch_list(), final(self).batch_list(), frontier@),
            final(self).advance_spec() == frontier@,
            final(self).through_spec() == old(self).through_spec(),
    ;

    fn advance_frontier(&self) -> (r: &[u64])
        ensures
            r@ == self.advance_spec(),
    ;

    /// Records that batches whose boundary is not in advance of `frontier`
    /// may be merged.
    fn distinguish_since(&mut self, frontier: &[u64])
        requires
            old(self).well_formed(),
        ensures
            final(self).well_formed(),
            final(self).batch_list() == old(self).batch_list(),
            final(self).advance_spec() == old(self).advance_spec(),
            final(self).through_spec() == frontier@,
    ;

    fn distinguish_frontier(&self) -> (r: &[u64])
        ensures
            r@ == self.through_spec(),
    ;

    /// The batches of the trace, in order.
    fn map_batches(&self) -> (r: &Vec<OrdBatch>)
        ensures
            r@ == self.batch_list(),
    ;
}

/// `after` is `before` with each batch advanced by `f`; nothing changes
/// when `f` is empty.
pub open spec fn compacted(before: Seq<OrdBatch>, after: Seq<OrdBatch>, f: Seq<u64>) -> bool {
    &&& after.len() == before.len()
    &&& f.len() == 0 ==> after == before
    &&& f.len() > 0 ==> forall|j: int| 0 <= j < before.len() ==> (#[trigger] before[j]).is_advance(f, after[j])
}

/// Every time of `later` is in advance of `earlier`: `later` does not come
/// before `earlier`.
pub open spec fn frontier_le(earlier: Seq<u64>, later: Seq<u64>) -> bool {
    forall|j: int| 0 <= j < later.len() ==> in_advance_of(earlier, #[trigger] later[j])
}

/// The upper frontier of a run of batches: that of its last batch, or the
/// least time if there is none.
pub open spec fn trace_upper(bs: Seq<OrdBatch>) -> Seq<u64> {
    if bs.len() == 0 {
        seq![0u64]
    } else {
        bs.last().desc.upper@
    }
}

/// An append-only collection of contiguous batches.
pub trait Trace: TraceReader {
    /// An empty trace whose frontiers are at the least time.
    fn new() -> (r: Self)
        ensures
            r.well_formed(),
            r.batch_list().len() == 0,
            r.advance_spec() == seq![0u64],
            r.through_spec() == seq![0u64],
    ;

    /// Appends a batch. Where its lower frontier is not the trace's upper
    /// frontier, an empty batch that closes the gap goes first.
    fn insert(&mut self, batch: OrdBatch)
        requires
            old(self).well_formed(),
            batch.wf(),
            frontier_le(trace_upper(old(self).batch_list()), batch.desc.lower@),
            abs_total(all_updates(old(self).batch_list()) + batch.updates@) <= i64::MAX,
        ensures
            final(self).well_formed(),
            final(self).advance_spec() == old(self).advance_spec(),
            final(self).through_spec() == old(self).through_spec(),
            trace_upper(old(self).batch_list()) == batch.desc.lower@ ==> final(self).batch_list() == old(
                self,
            ).batch_list().push(batch),
            trace_upper(old(self).batch_list()) != batch.desc.lower@ ==> {
                &&& final(self).batch_list().len() == old(self).batch_list().len() + 2
                &&& final(self).batch_list().take(old(self).batch_list().len() as int) == old(self).batch_list()
                &&& final(self).batch_list()[old(self).batch_list().len() as int].desc.lower@ == trace_upper(
                    old(self).batch_list(),
                )
                &&& final(self).batch_list()[old(self).batch_list().len() as int].desc.upper@ == batch.desc.lower@
                &&& final(self).batch_list()[old(self).batch_list().len() as int].updates@.len() == 0
                &&& final(self).batch_list().last() == batch
            },
    ;
}

/// An append-only sequence of contiguous batches, with the frontiers that
/// readers have allowed it to compact and merge by.
pub struct OrdTrace {
    pub batches: Vec<OrdBatch>,
    pub advance: Vec<u64>,
    pub through: Vec<u64>,
}

impl OrdTrace {
    pub open spec fn wf(&self) -> bool {
        &&& forall|i: int| 0 <= i < self.batches@.len() ==> (#[trigger] self.batches@[i]).wf()
        &&& contiguous(self.batches@)
        &&& self.batches@.len() > 0 ==> self.batches@[0].desc.lower@ == seq![0u64]
        &&& abs_total(all_updates(self.batches@)) <= i64::MAX
    }

    /// The upper frontier of the trace: that of its last batch.
    pub open spec fn upper_spec(&self) -> Seq<u64> {
        trace_upper(self.batches@)
    }

    /// The upper frontier of the trace.
    pub fn upper(&self) -> (r: Vec<u64>)
        ensures
            r@ == self.upper_spec(),
    {
        if self.batches.len() == 0 {
            vec![0u64]
        } else {
            copy_frontier(self.batches[self.batches.len() - 1].upper())
        }
    }

    /// The contents of the first `n` batches as one batch.
    fn merged_prefix(&self, n: usize) -> (r: OrdBatch)
        requires
            self.wf(),
            n <= self.batches@.len(),
        ensures
            r.wf(),
            is_consolidation(all_updates(self.batches@.take(n as int)), r.updates@),
            n > 0 ==> r.desc.lower@ == self.batches@[0].desc.lower@ && r.desc.upper@
                == self.batches@[n - 1].desc.upper@,
    {
        let mut all: Vec<Update> = Vec::new();
        let mut i: usize = 0;
        while i < n
            invariant
                i <= n <= self.batches@.len(),
                all@ == all_updates(self.batches@.take(i as int)),
            decreases n - i,
        {
            let mut more = copy_updates(&self.batches[i].updates);
            all.append(&mut more);
            i += 1;
            assert(self.batches@.take(i as int).drop_last() =~= self.batches@.take(i - 1));
        }
        proof {
            lemma_all_updates_prefix(self.batches@, n as int);
            lemma_abs_total_prefix(all_updates(self.batches@), all@.len() as int);
            assert(all@.subrange(0, all@.len() as int) =~= all@);
        }
        proof {
            lemma_abs_total_sums_fit(all@);
        }
        let updates = consolidated(&all, 0);
        if n == 0 {
            OrdBatch { desc: Description::new(&[0u64], &[0u64], self.advance.as_slice()), updates }
        } else {
            OrdBatch {
                desc: Description::new(
                    self.batches[0].lower(),
                    self.batches[n - 1].upper(),
                    self.advance.as_slice(),
                ),
                updates,
            }
        }
    }

}

impl TraceReader for OrdTrace {
    open spec fn well_formed(&self) -> bool {
        self.wf()
    }

    open spec fn batch_list(&self) -> Seq<OrdBatch> {
        self.batches@
    }

    open spec fn advance_spec(&self) -> Seq<u64> {
        self.advance@
    }

    open spec fn through_spec(&self) -> Seq<u64> {
        self.through@
    }

    /// The contents of the batches up to the clean cut `upper`, as one
    /// batch, with a cursor at its start. An empty `upper` covers every
    /// batch; otherwise `upper` must be the upper frontier of a batch.
    fn cursor_through(&self, upper: &[u64]) -> (r: Option<(BatchCursor, OrdBatch)>)
    {
        if upper.len() == 0 {
            let b = self.merged_prefix(self.batches.len());
            assert(is_cut(self.batches@, upper@, self.batches@.len() as int));
            assert(self.batches@.take(self.batches@.len() as int) =~= self.batches@);
            assert(covers(self.batches@, upper@, b.updates@));
            return Some((BatchCursor::new(), b));
        }
        let mut i: usize = 0;
        while i < self.batches.len()
            invariant
                i <= self.batches@.len(),
                self.wf(),
                upper@.len() > 0,
                forall|j: int| 0 <= j < i ==> (#[trigger] self.batches@[j]).desc.upper@ != upper@,
            decreases self.batches.len() - i,
        {
            if same_frontier(self.batches[i].upper(), upper) {
                let b = self.merged_prefix(i + 1);
                assert(is_cut(self.batches@, upper@, i + 1));
                let ghost n: int = i + 1;
                assert(is_cut(self.batches@, upper@, n) && is_consolidation(all_updates(self.batches@.take(n)), b.updates@));
                assert(covers(self.batches@, upper@, b.updates@));
                let c = BatchCursor::new();
                assert(self.batch_list()[i as int].desc.upper@ == upper@);
                assert(c.is_start() && b.wf());
                return Some((c, b));
            }
            i += 1;
        }
        proof {
            if exists|k: int| 0 <= k < self.batch_list().len() && (#[trigger] self.batch_list()[k]).desc.upper@ == upper@ {
                let k = choose|k: int| 0 <= k < self.batch_list().len() && (#[trigger] self.batch_list()[k]).desc.upper@ == upper@;
                assert(self.batches@[k].desc.upper@ != upper@);
            }
        }
        None
    }

    /// A cursor over the whole trace.
    fn cursor(&self) -> (r: (BatchCursor, OrdBatch))
    {
        let everything: Vec<u64> = Vec::new();
        let r = self.cursor_through(everything.as_slice());
        match r {
            Some(p) => {
                proof {
                    let n = choose|n: int| #[trigger] is_cut(self.batches@, everything@, n) && is_consolidation(
                        all_updates(self.batches@.take(n)), p.1.updates@);
                    assert(self.batches@.take(n) =~= self.batches@);
                }
                p
            },
            None => {
                proof {
                    assert(false);
                }
                (BatchCursor::new(), OrdBatch::empty(&[0u64], &[0u64], &[0u64]))
            },
        }
    }

    /// Records that times not in advance of `frontier` need no longer be told
    /// apart.
    fn advance_by(&mut self, frontier: &[u64])
    {
        if frontier.len() > 0 {
            let ghost before = self.batches@;
            let mut after: Vec<OrdBatch> = Vec::new();
            let mut i: usize = 0;
            while i < self.batches.len()
                invariant
                    i <= self.batches@.len(),
                    self.batches@ == before,
                    self.wf(),
                    frontier@.len() > 0,
                    after@.len() == i,
                    forall|j: int| 0 <= j < i ==> (#[trigger] after@[j]).wf() && before[j].is_advance(frontier@, after@[j]),
                    abs_total(all_updates(after@)) <= abs_total(all_updates(before.take(i as int))),
                decreases self.batches.len() - i,
            {
                proof {
                    lemma_all_updates_prefix(before, i + 1);
                    lemma_abs_total_prefix(all_updates(before), all_updates(before.take(i + 1)).len() as int);
                    assert(before.take(i + 1).drop_last() =~= before.take(i as int));
                    lemma_abs_total_concat(all_updates(before.take(i as int)), before[i as int].updates@);
                    lemma_abs_total_nonneg(all_updates(before.take(i as int)));
                }
                let b = self.batches[i].advance_ref(frontier);
                let ghost prev = after@;
                after.push(b);
                proof {
                    assert(after@.drop_last() =~= prev);
                    lemma_abs_total_concat(all_updates(prev), b.updates@);
                }
                i += 1;
            }
            proof {
                assert(before.take(i as int) =~= before);
                assert forall|j: int| 0 <= j < after@.len() - 1 implies (#[trigger] after@[j]).desc.upper@ == after@[j + 1].desc.lower@ by {
                    assert(before[j].desc.upper@ == before[j + 1].desc.lower@);
                }
            }
            self.batches = after;
        }
        self.advance = copy_frontier(frontier);
    }

    fn advance_frontier(&self) -> (r: &[u64])
    {
        self.advance.as_slice()
    }

    /// Records that batches whose boundary is not in advance of `frontier`
    /// may be merged.
    fn distinguish_since(&mut self, frontier: &[u64])
    {
        self.through = copy_frontier(frontier);
    }

    fn distinguish_frontier(&self) -> (r: &[u64])
    {
        self.through.as_slice()
    }

    /// The batches of the trace, in order.
    fn map_batches(&self) -> (r: &Vec<OrdBatch>)
    {
        &self.batches
    }
}

impl Trace for OrdTrace {
    /// An empty trace whose frontiers are at the least time.
    fn new() -> (r: OrdTrace)
    {
        OrdTrace { batches: Vec::new(), advance: vec![0u64], through: vec![0u64] }
    }

    /// Appends a batch. Where its lower frontier is not the trace's upper
    /// frontier, an empty batch that closes the gap goes first.
    fn insert(&mut self, batch: OrdBatch)
    {
        let upper = self.upper();
        let ghost bs = self.batches@;
        if !same_frontier(upper.as_slice(), batch.lower()) {
            let filler = OrdBatch::empty(upper.as_slice(), batch.lower(), upper.as_slice());
            let ghost f = filler;
            self.batches.push(filler);
            assert(self.batches@.drop_last() =~= bs);
            assert(all_updates(self.batches@) =~= all_updates(bs) + f.updates@);
            assert(all_updates(self.batches@) =~= all_updates(bs));
        }
        let ghost mid = self.batches@;
        self.batches.push(batch);
        proof {
            assert(self.batches@.drop_last() =~= mid);
            assert(all_updates(mid) == all_updates(bs));
            if mid.len() == bs.len() + 1 {
                assert(self.batches@.take(bs.len() as int) =~= bs);
            }
        }
    }
}

/// The sum over the batches of `bs` of their accumulations at `k`, `v`, `q`.
pub open spec fn batches_accumulation(bs: Seq<OrdBatch>, k: u64, v: u64, q: u64) -> int
    decreases bs.len(),
{
    if bs.len() == 0 {
        0
    } else {
        batches_accumulation(bs.drop_last(), k, v, q) + accumulation(bs.last().updates@, k, v, q)
    }
}

pub proof fn lemma_all_updates_accumulation(bs: Seq<OrdBatch>, k: u64, v: u64, q: u64)
    ensures
        accumulation(all_updates(bs), k, v, q) == batches_accumulation(bs, k, v, q),
    decreases bs.len(),
{
    let p = |x: KeyValTime| x.key == k && x.val == v && x.time <= q;
    if bs.len() == 0 {
        assert(mass(Seq::<Update>::empty(), p) == 0);
    } else {
        lemma_all_updates_accumulation(bs.drop_last(), k, v, q);
        lemma_mass_concat(all_updates(bs.drop_last()), bs.last().updates@, p);
    }
}

/// What a cursor over the whole trace shows accumulates, at every key,
/// value and time, to the sum of the accumulations of the trace's batches:
/// putting batches together never changes an accumulation.
pub proof fn lemma_cursor_accumulation(trace: OrdTrace, contents: Seq<Update>, k: u64, v: u64, q: u64)
    requires
        is_consolidation(all_updates(trace.batches@), contents),
    ensures
        accumulation(contents, k, v, q) == batches_accumulation(trace.batches@, k, v, q),
{
    let p = |x: KeyValTime| x.key == k && x.val == v && x.time <= q;
    assert(mass(contents, p) == mass(all_updates(trace.batches@), p));
    lemma_all_updates_accumulation(trace.batches@, k, v, q);
}

pub proof fn lemma_all_updates_prefix(bs: Seq<OrdBatch>, n: int)
    requires
        0 <= n <= bs.len(),
    ensures
        all_updates(bs.take(n)).len() <= all_updates(bs).len(),
        all_updates(bs).take(all_updates(bs.take(n)).len() as int) == all_updates(bs.take(n)),
    decreases bs.len() - n,
{
    if n < bs.len() {
        lemma_all_updates_prefix(bs, n + 1);
        assert(bs.take(n + 1).drop_last() =~= bs.take(n));
        let a = all_updates(bs.take(n));
        let b = all_updates(bs.take(n + 1));
        let all = all_updates(bs);
        assert(b =~= a + bs[n].updates@);
        assert(all.take(b.len() as int).take(a.len() as int) =~= all.take(a.len() as int));
        assert(b.take(a.len() as int) =~= a);
    } else {
        assert(bs.take(n) =~= bs);
        assert(all_updates(bs).take(all_updates(bs).len() as int) =~= all_updates(bs));
    }
}

} // verus!
