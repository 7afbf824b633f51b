use vstd::prelude::*;
use timely::progress::frontier::MutableAntichain;
use crate::batch::{OrdBatch, copy_frontier};
use crate::cursor::BatchCursor;
use crate::trace::{OrdTrace, TraceReader, covers, compacted};

verus! {

/// timely's `MutableAntichain`, carried as an opaque value: a multiset of
/// times with signed counts, and the frontier of those counted positive.
#[verifier::external_type_specification]
#[verifier::external_body]
#[verifier::reject_recursive_types(T)]
pub struct ExMutableAntichain<T>(MutableAntichain<T>);

/// The count that a `MutableAntichain` holds for each time.
pub uninterp spec fn counts(a: MutableAntichain<u64>) -> Map<u64, int>;

/// The count of `t` in `m`, zero where `m` has none.
pub open spec fn count_in(m: Map<u64, int>, t: u64) -> int {
    if m.dom().contains(t) {
        m[t]
    } else {
        0
    }
}

/// `f` is the frontier of the times with a positive count in `m`: for times
/// in a total order, the least such time, or nothing if there is none.
pub open spec fn is_positive_frontier(m: Map<u64, int>, f: Seq<u64>) -> bool {
    &&& (f.len() == 0) == (forall|t: u64| #[trigger] count_in(m, t) <= 0)
    &&& f.len() > 0 ==> f.len() == 1 && count_in(m, f[0]) > 0 && forall|t: u64|
        #[trigger] count_in(m, t) > 0 ==> f[0] <= t
}

/// Relies on `MutableAntichain::new`: a new antichain holds no counts.
#[verifier::external_body]
fn antichain_new() -> (r: MutableAntichain<u64>)
    ensures
        forall|t: u64| #[trigger] count_in(counts(r), t) == 0,
{
    MutableAntichain::new()
}

/// Relies on `MutableAntichain::update_iter`: the count of `t` changes by
/// `delta`, and no other count changes. Only unit steps are taken, so the
/// partial sums that a compaction forms stay within the counts held.
#[verifier::external_body]
fn antichain_update(a: &mut MutableAntichain<u64>, t: u64, delta: i64)
    requires
        delta == 1 || delta == -1,
        i64::MIN <= count_in(counts(*old(a)), t) + delta <= i64::MAX,
    ensures
        forall|u: u64| #[trigger] count_in(counts(*final(a)), u) == count_in(counts(*old(a)), u) + if u == t {
            delta as int
        } else {
            0
        },
{
    a.update_iter(std::iter::once((t, delta)));
}

/// Relies on `MutableAntichain::frontier`: the minimal times with a positive
/// count.
#[verifier::external_body]
fn antichain_elements(a: &MutableAntichain<u64>) -> (r: Vec<u64>)
    ensures
        is_positive_frontier(counts(*a), r@),
{
    a.frontier().to_vec()
}

/// Two count maps with the same positive times have the same positive frontier.
pub proof fn lemma_positive_frontier_unique(m1: Map<u64, int>, m2: Map<u64, int>, f1: Seq<u64>, f2: Seq<u64>)
    requires
        is_positive_frontier(m1, f1),
        is_positive_frontier(m2, f2),
        forall|t: u64| (#[trigger] count_in(m1, t) > 0) == (count_in(m2, t) > 0),
    ensures
        f1 == f2,
{
    if f1.len() == 0 {
        assert forall|t: u64| #[trigger] count_in(m2, t) <= 0 by {
            assert(count_in(m1, t) <= 0);
        }
        assert(f1 =~= f2);
    } else {
        assert(count_in(m2, f1[0]) > 0);
        assert(f2.len() == 1);
        assert(count_in(m1, f2[0]) > 0);
        assert(f1 =~= f2);
    }
}

/// How often `t` occurs in `s`.
pub open spec fn occurrences(s: Seq<u64>, t: u64) -> int
    decreases s.len(),
{
    if s.len() == 0 {
        0
    } else {
        occurrences(s.drop_last(), t) + if s.last() == t {
            1int
        } else {
            0
        }
    }
}

pub proof fn lemma_occurrences_prefix(s: Seq<u64>, k: int, t: u64)
    requires
        0 <= k <= s.len(),
    ensures
        0 <= occurrences(s.take(k), t) <= occurrences(s, t) <= s.len(),
    decreases s.len() - k,
{
    lemma_occurrences_len(s, t);
    lemma_occurrences_len(s.take(k), t);
    if k < s.len() {
        lemma_occurrences_prefix(s, k + 1, t);
        assert(s.take(k + 1).drop_last() =~= s.take(k));
    } else {
        assert(s.take(k) =~= s);
    }
}

pub proof fn lemma_occurrences_len(s: Seq<u64>, t: u64)
    ensures
        0 <= occurrences(s, t) <= s.len(),
    decreases s.len(),
{
    if s.len() > 0 {
        lemma_occurrences_len(s.drop_last(), t);
    }
}

/// Changes the counts of `a`: one up for each element of `upper`, then one
/// down for each element of `lower`.
fn adjust_counts(a: &mut MutableAntichain<u64>, lower: &[u64], upper: &[u64])
    requires
        forall|t: u64| #[trigger] count_in(counts(*old(a)), t) + occurrences(upper@, t) <= i64::MAX,
        forall|t: u64| #[trigger] count_in(counts(*old(a)), t) - occurrences(lower@, t) >= 0,
    ensures
        forall|t: u64| #[trigger] count_in(counts(*final(a)), t) == count_in(counts(*old(a)), t) + occurrences(
            upper@,
            t,
        ) - occurrences(lower@, t),
{
    let ghost c0 = counts(*a);
    let mut i: usize = 0;
    while i < upper.len()
        invariant
            i <= upper.len(),
            forall|t: u64| #[trigger] count_in(c0, t) + occurrences(upper@, t) <= i64::MAX,
            forall|t: u64| #[trigger] count_in(c0, t) - occurrences(lower@, t) >= 0,
            forall|t: u64| #[trigger] count_in(counts(*a), t) == count_in(c0, t) + occurrences(upper@.take(i as int), t),
        decreases upper.len() - i,
    {
        proof {
            assert(upper@.take(i + 1).drop_last() =~= upper@.take(i as int));
            lemma_occurrences_prefix(upper@, i + 1, upper@[i as int]);
            lemma_occurrences_prefix(upper@, i as int, upper@[i as int]);
            assert(count_in(c0, upper@[i as int]) + occurrences(upper@, upper@[i as int]) <= i64::MAX);
            assert(count_in(c0, upper@[i as int]) - occurrences(lower@, upper@[i as int]) >= 0);
            lemma_occurrences_len(lower@, upper@[i as int]);
            assert(upper@.take(i + 1).last() == upper@[i as int]);
        }
        antichain_update(a, upper[i], 1);
        i += 1;
    }
    assert(upper@.take(i as int) =~= upper@);
    let ghost c1 = counts(*a);
    let mut j: usize = 0;
    while j < lower.len()
        invariant
            j <= lower.len(),
            forall|t: u64| #[trigger] count_in(c0, t) - occurrences(lower@, t) >= 0,
            forall|t: u64| #[trigger] count_in(c0, t) + occurrences(upper@, t) <= i64::MAX,
            forall|t: u64| #[trigger] count_in(c1, t) == count_in(c0, t) + occurrences(upper@, t),
            forall|t: u64| #[trigger] count_in(counts(*a), t) == count_in(c1, t) - occurrences(lower@.take(j as int), t),
        decreases lower.len() - j,
    {
        proof {
            let e = lower@[j as int];
            assert(lower@.take(j + 1).drop_last() =~= lower@.take(j as int));
            lemma_occurrences_prefix(lower@, j + 1, e);
            lemma_occurrences_prefix(lower@, j as int, e);
            lemma_occurrences_len(upper@, e);
            assert(count_in(c0, e) - occurrences(lower@, e) >= 0);
            assert(count_in(c1, e) == count_in(c0, e) + occurrences(upper@, e));
            assert(count_in(c0, e) + occurrences(upper@, e) <= i64::MAX);
            assert(lower@.take(j + 1).last() == e);
        }
        antichain_update(a, lower[j], -1);
        j += 1;
    }
    assert(lower@.take(j as int) =~= lower@);
}

/// The frontiers that one handle holds on a shared trace.
pub struct Holds {
    pub advance: Vec<u64>,
    pub through: Vec<u64>,
}

/// How often `t` occurs in the advance (`adv`) or through frontier of a
/// handle, if it is live.
pub open spec fn contribution(o: Option<Holds>, t: u64, adv: bool) -> int {
    match o {
        Some(h) => occurrences(if adv { h.advance@ } else { h.through@ }, t),
        None => 0,
    }
}

/// How often `t` occurs in the advance (`adv`) or through frontiers of all
/// live handles.
pub open spec fn held(hs: Seq<Option<Holds>>, t: u64, adv: bool) -> int
    decreases hs.len(),
{
    if hs.len() == 0 {
        0
    } else {
        held(hs.drop_last(), t, adv) + contribution(hs.last(), t, adv)
    }
}

/// The number of frontier elements that all live handles hold.
pub open spec fn held_size(hs: Seq<Option<Holds>>) -> int
    decreases hs.len(),
{
    if hs.len() == 0 {
        0
    } else {
        held_size(hs.drop_last()) + match hs.last() {
            Some(h) => h.advance@.len() + h.through@.len(),
            None => 0,
        }
    }
}

pub proof fn lemma_held_update(hs: Seq<Option<Holds>>, i: int, x: Option<Holds>, t: u64, adv: bool)
    requires
        0 <= i < hs.len(),
    ensures
        held(hs.update(i, x), t, adv) == held(hs, t, adv) - contribution(hs[i], t, adv) + contribution(x, t, adv),
        held_size(hs.update(i, x)) == held_size(hs) - match hs[i] {
            Some(h) => h.advance@.len() + h.through@.len(),
            None => 0,
        } + match x {
            Some(h) => h.advance@.len() + h.through@.len(),
            None => 0,
        },
    decreases hs.len(),
{
    if i < hs.len() - 1 {
        assert(hs.update(i, x).drop_last() =~= hs.drop_last().update(i, x));
        lemma_held_update(hs.drop_last(), i, x, t, adv);
    } else {
        assert(hs.update(i, x).drop_last() =~= hs.drop_last());
    }
}

pub proof fn lemma_held_bounds(hs: Seq<Option<Holds>>, t: u64, adv: bool)
    ensures
        0 <= held(hs, t, adv) <= held_size(hs),
    decreases hs.len(),
{
    if hs.len() > 0 {
        lemma_held_bounds(hs.drop_last(), t, adv);
        match hs.last() {
            Some(h) => {
                lemma_occurrences_len(h.advance@, t);
                lemma_occurrences_len(h.through@, t);
            },
            None => {},
        }
    }
}

pub proof fn lemma_held_member(hs: Seq<Option<Holds>>, i: int, t: u64, adv: bool)
    requires
        0 <= i < hs.len(),
    ensures
        contribution(hs[i], t, adv) <= held(hs, t, adv),
{
    lemma_held_update(hs, i, None, t, adv);
    lemma_held_bounds(hs.update(i, None), t, adv);
}

/// A trace shared by handles, with the counts of the frontiers that the
/// handles hold. The trace is advanced and distinguished by the least times
/// that some handle still holds.
pub struct TraceBox {
    /// The counts of the handles' advance frontiers.
    pub advance_frontiers: MutableAntichain<u64>,
    /// The counts of the handles' through frontiers.
    pub through_frontiers: MutableAntichain<u64>,
    /// The shared trace.
    pub trace: OrdTrace,
    /// The frontiers of each handle, `None` once it is dropped.
    pub holds: Vec<Option<Holds>>,
}

impl TraceBox {
    /// The counts are exactly the frontiers that the live handles hold.
    pub open spec fn wf(&self) -> bool {
        &&& self.trace.wf()
        &&& held_size(self.holds@) <= i64::MAX
        &&& forall|t: u64| #[trigger] count_in(counts(self.advance_frontiers), t) == held(self.holds@, t, true)
        &&& forall|t: u64| #[trigger] count_in(counts(self.through_frontiers), t) == held(self.holds@, t, false)
    }

    /// Moves a trace into a box whose counts hold its current frontiers.
    pub fn new(trace: OrdTrace) -> (r: TraceBox)
        requires
            trace.wf(),
            trace.advance@.len() <= i64::MAX,
            trace.through@.len() <= i64::MAX,
        ensures
            r.trace == trace,
            r.holds@.len() == 0,
            forall|t: u64| #[trigger] count_in(counts(r.advance_frontiers), t) == occurrences(trace.advance@, t),
            forall|t: u64| #[trigger] count_in(counts(r.through_frontiers), t) == occurrences(trace.through@, t),
    {
        let mut advance = antichain_new();
        let mut through = antichain_new();
        proof {
            assert forall|t: u64| #[trigger] count_in(counts(advance), t) + occurrences(trace.advance@, t) <= i64::MAX by {
                lemma_occurrences_len(trace.advance@, t);
            }
            assert forall|t: u64| #[trigger] count_in(counts(through), t) + occurrences(trace.through@, t) <= i64::MAX by {
                lemma_occurrences_len(trace.through@, t);
            }
        }
        adjust_counts(&mut advance, &[], trace.advance_frontier());
        adjust_counts(&mut through, &[], trace.distinguish_frontier());
        TraceBox { advance_frontiers: advance, through_frontiers: through, trace, holds: Vec::new() }
    }

    /// Counts each element of `upper` in and each element of `lower` out of
    /// the advance counts, then advances the trace by the least counted time.
    pub fn adjust_advance_frontier(&mut self, lower: &[u64], upper: &[u64])
        requires
            old(self).trace.wf(),
            forall|t: u64| #[trigger] count_in(counts(old(self).advance_frontiers), t) + occurrences(upper@, t) <= i64::MAX,
            forall|t: u64| #[trigger] count_in(counts(old(self).advance_frontiers), t) - occurrences(lower@, t) >= 0,
        ensures
            forall|t: u64| #[trigger] count_in(counts(final(self).advance_frontiers), t) == count_in(
                counts(old(self).advance_frontiers),
                t,
            ) + occurrences(upper@, t) - occurrences(lower@, t),
            final(self).through_frontiers == old(self).through_frontiers,
            final(self).holds@ == old(self).holds@,
            final(self).trace.wf(),
            compacted(old(self).trace.batches@, final(self).trace.batches@, final(self).trace.advance@),
            final(self).trace.through@ == old(self).trace.through@,
            is_positive_frontier(counts(final(self).advance_frontiers), final(self).trace.advance@),
    {
        adjust_counts(&mut self.advance_frontiers, lower, upper);
        let elements = antichain_elements(&self.advance_frontiers);
        self.trace.advance_by(elements.as_slice());
    }

    /// Counts each element of `upper` in and each element of `lower` out of
    /// the through counts, then lets the trace merge before the least counted
    /// time.
    pub fn adjust_through_frontier(&mut self, lower: &[u64], upper: &[u64])
        requires
            old(self).trace.wf(),
            forall|t: u64| #[trigger] count_in(counts(old(self).through_frontiers), t) + occurrences(upper@, t) <= i64::MAX,
            forall|t: u64| #[trigger] count_in(counts(old(self).through_frontiers), t) - occurrences(lower@, t) >= 0,
        ensures
            forall|t: u64| #[trigger] count_in(counts(final(self).through_frontiers), t) == count_in(
                counts(old(self).through_frontiers),
                t,
            ) + occurrences(upper@, t) - occurrences(lower@, t),
            final(self).advance_frontiers == old(self).advance_frontiers,
            final(self).holds@ == old(self).holds@,
            final(self).trace.wf(),
            final(self).trace.batches@ == old(self).trace.batches@,
            final(self).trace.advance@ == old(self).trace.advance@,
            is_positive_frontier(counts(final(self).through_frontiers), final(self).trace.through@),
    {
        adjust_counts(&mut self.through_frontiers, lower, upper);
        let elements = antichain_elements(&self.through_frontiers);
        self.trace.distinguish_since(elements.as_slice());
    }
}

/// A handle on a shared trace: the frontiers it holds stand in the box at
/// `index`.
pub struct TraceRc {
    pub index: usize,
}

impl TraceRc {
    /// The handle has not been dropped.
    pub open spec fn is_live(&self, wrapper: &TraceBox) -> bool {
        self.index < wrapper.holds@.len() && wrapper.holds@[self.index as int].is_some()
    }

    /// The frontiers this handle holds.
    pub open spec fn holds_of(&self, wrapper: &TraceBox) -> Holds {
        wrapper.holds@[self.index as int].unwrap()
    }

    /// Puts `trace` in a new box, with one handle that holds its frontiers.
    pub fn make_from(trace: OrdTrace) -> (r: (TraceRc, TraceBox))
        requires
            trace.wf(),
            trace.advance@.len() + trace.through@.len() <= i64::MAX,
        ensures
            r.1.wf(),
            r.1.trace == trace,
            r.1.holds@.len() == 1,
            r.0.is_live(&r.1),
            r.0.holds_of(&r.1).advance@ == trace.advance@,
            r.0.holds_of(&r.1).through@ == trace.through@,
    {
        let advance = copy_frontier(trace.advance_frontier());
        let through = copy_frontier(trace.distinguish_frontier());
        let mut wrapped = TraceBox::new(trace);
        let ghost before = wrapped.holds@;
        let ghost x = Some(Holds { advance, through });
        wrapped.holds.push(Some(Holds { advance, through }));
        proof {
            assert(wrapped.holds@.drop_last() =~= before);
            assert(wrapped.holds@.last() == x);
            assert(held_size(before) == 0);
            assert forall|t: u64| #[trigger] count_in(counts(wrapped.advance_frontiers), t) == held(wrapped.holds@, t, true) by {
                assert(held(before, t, true) == 0);
            }
            assert forall|t: u64| #[trigger] count_in(counts(wrapped.through_frontiers), t) == held(wrapped.holds@, t, false) by {
                assert(held(before, t, false) == 0);
            }
        }
        (TraceRc { index: 0 }, wrapped)
    }

    fn advance_held(&self, wrapper: &TraceBox) -> (r: Vec<u64>)
        requires
            self.is_live(wrapper),
        ensures
            r@ == self.holds_of(wrapper).advance@,
    {
        match &wrapper.holds[self.index] {
            Some(h) => copy_frontier(h.advance.as_slice()),
            None => Vec::new(),
        }
    }

    fn through_held(&self, wrapper: &TraceBox) -> (r: Vec<u64>)
        requires
            self.is_live(wrapper),
        ensures
            r@ == self.holds_of(wrapper).through@,
    {
        match &wrapper.holds[self.index] {
            Some(h) => copy_frontier(h.through.as_slice()),
            None => Vec::new(),
        }
    }

    /// Replaces the advance frontier this handle holds by `frontier`. The
    /// trace advances by the least time that some handle still holds.
    pub fn advance_by(&self, wrapper: &mut TraceBox, frontier: &[u64])
        requires
            old(wrapper).wf(),
            self.is_live(old(wrapper)),
            held_size(old(wrapper).holds@) + frontier@.len() <= i64::MAX,
        ensures
            final(wrapper).wf(),
            final(wrapper).holds@.len() == old(wrapper).holds@.len(),
            forall|j: int| 0 <= j < old(wrapper).holds@.len() && j != self.index ==> #[trigger] final(wrapper).holds@[j] == old(wrapper).holds@[j],
            self.is_live(final(wrapper)),
            self.holds_of(final(wrapper)).advance@ == frontier@,
            self.holds_of(final(wrapper)).through@ == self.holds_of(old(wrapper)).through@,
            compacted(old(wrapper).trace.batches@, final(wrapper).trace.batches@, final(wrapper).trace.advance@),
            is_positive_frontier(counts(final(wrapper).advance_frontiers), final(wrapper).trace.advance@),
            final(wrapper).trace.through@ == old(wrapper).trace.through@,
    {
        let ghost hs = wrapper.holds@;
        let ghost i = self.index as int;
        let previous = self.advance_held(wrapper);
        let through = self.through_held(wrapper);
        proof {
            assert forall|t: u64| #[trigger] count_in(counts(wrapper.advance_frontiers), t) + occurrences(frontier@, t) <= i64::MAX by {
                lemma_held_bounds(hs, t, true);
                lemma_occurrences_len(frontier@, t);
            }
            assert forall|t: u64| #[trigger] count_in(counts(wrapper.advance_frontiers), t) - occurrences(previous@, t) >= 0 by {
                lemma_held_member(hs, i, t, true);
            }
        }
        wrapper.adjust_advance_frontier(previous.as_slice(), frontier);
        let h = Holds { advance: copy_frontier(frontier), through };
        let ghost x = Some(h);
        wrapper.holds.set(self.index, Some(h));
        proof {
            lemma_held_update(hs, i, x, 0, true);
            assert forall|t: u64| #[trigger] count_in(counts(wrapper.advance_frontiers), t) == held(wrapper.holds@, t, true) by {
                lemma_held_update(hs, i, x, t, true);
            }
            assert forall|t: u64| #[trigger] count_in(counts(wrapper.through_frontiers), t) == held(wrapper.holds@, t, false) by {
                lemma_held_update(hs, i, x, t, false);
            }
        }
    }

    /// Replaces the through frontier this handle holds by `frontier`. The
    /// trace may merge batches before the least time that some handle still
    /// holds.
    pub fn distinguish_since(&self, wrapper: &mut TraceBox, frontier: &[u64])
        requires
            old(wrapper).wf(),
            self.is_live(old(wrapper)),
            held_size(old(wrapper).holds@) + frontier@.len() <= i64::MAX,
        ensures
            final(wrapper).wf(),
            final(wrapper).holds@.len() == old(wrapper).holds@.len(),
            forall|j: int| 0 <= j < old(wrapper).holds@.len() && j != self.index ==> #[trigger] final(wrapper).holds@[j] == old(wrapper).holds@[j],
            self.is_live(final(wrapper)),
            self.holds_of(final(wrapper)).advance@ == self.holds_of(old(wrapper)).advance@,
            self.holds_of(final(wrapper)).through@ == frontier@,
            final(wrapper).trace.batches@ == old(wrapper).trace.batches@,
            is_positive_frontier(counts(final(wrapper).through_frontiers), final(wrapper).trace.through@),
            final(wrapper).trace.advance@ == old(wrapper).trace.advance@,
    {
        let ghost hs = wrapper.holds@;
        let ghost i = self.index as int;
        let advance = self.advance_held(wrapper);
        let previous = self.through_held(wrapper);
        proof {
            assert forall|t: u64| #[trigger] count_in(counts(wrapper.through_frontiers), t) + occurrences(frontier@, t) <= i64::MAX by {
                lemma_held_bounds(hs, t, false);
                lemma_occurrences_len(frontier@, t);
            }
            assert forall|t: u64| #[trigger] count_in(counts(wrapper.through_frontiers), t) - occurrences(previous@, t) >= 0 by {
                lemma_held_member(hs, i, t, false);
            }
        }
        wrapper.adjust_through_frontier(previous.as_slice(), frontier);
        let h = Holds { advance, through: copy_frontier(frontier) };
        let ghost x = Some(h);
        wrapper.holds.set(self.index, Some(h));
        proof {
            lemma_held_update(hs, i, x, 0, true);
            assert forall|t: u64| #[trigger] count_in(counts(wrapper.advance_frontiers), t) == held(wrapper.holds@, t, true) by {
                lemma_held_update(hs, i, x, t, true);
            }
            assert forall|t: u64| #[trigger] count_in(counts(wrapper.through_frontiers), t) == held(wrapper.holds@, t, false) by {
                lemma_held_update(hs, i, x, t, false);
            }
        }
    }

    /// The advance frontier this handle holds.
    pub fn advance_frontier(&self, wrapper: &TraceBox) -> (r: Vec<u64>)
        requires
            self.is_live(wrapper),
        ensures
            r@ == self.holds_of(wrapper).advance@,
    {
        self.advance_held(wrapper)
    }

    /// The through frontier this handle holds.
    pub fn distinguish_frontier(&self, wrapper: &TraceBox) -> (r: Vec<u64>)
        requires
            self.is_live(wrapper),
        ensures
            r@ == self.holds_of(wrapper).through@,
    {
        self.through_held(wrapper)
    }

    /// A cursor over the shared trace up to the clean cut `upper`.
    pub fn cursor_through(&self, wrapper: &TraceBox, upper: &[u64]) -> (r: Option<(BatchCursor, OrdBatch)>)
        requires
            wrapper.wf(),
        ensures
            r.is_some() == (upper@.len() == 0 || exists|i: int|
                0 <= i < wrapper.trace.batch_list().len() && (#[trigger] wrapper.trace.batch_list()[i]).desc.upper@
                    == upper@),
            r matches Some((c, b)) ==> c.is_start() && b.wf() && covers(wrapper.trace.batches@, upper@, b.updates@),
    {
        wrapper.trace.cursor_through(upper)
    }

    /// The batches of the shared trace, in order.
    pub fn map_batches<'a>(&self, wrapper: &'a TraceBox) -> (r: &'a Vec<OrdBatch>)
        ensures
            r@ == wrapper.trace.batches@,
    {
        wrapper.trace.map_batches()
    }

    /// A new handle that holds the same frontiers as this one.
    pub fn clone(&self, wrapper: &mut TraceBox) -> (r: TraceRc)
        requires
            old(wrapper).wf(),
            self.is_live(old(wrapper)),
            2 * held_size(old(wrapper).holds@) <= i64::MAX,
        ensures
            final(wrapper).wf(),
            final(wrapper).holds@.len() == old(wrapper).holds@.len() + 1,
            final(wrapper).holds@.take(old(wrapper).holds@.len() as int) == old(wrapper).holds@,
            r.index == old(wrapper).holds@.len(),
            self.holds_of(final(wrapper)).advance@ == self.holds_of(old(wrapper)).advance@,
            r.holds_of(final(wrapper)).advance@ == self.holds_of(old(wrapper)).advance@,
            r.holds_of(final(wrapper)).through@ == self.holds_of(old(wrapper)).through@,
            compacted(old(wrapper).trace.batches@, final(wrapper).trace.batches@, final(wrapper).trace.advance@),
            is_positive_frontier(counts(final(wrapper).advance_frontiers), final(wrapper).trace.advance@),
            is_positive_frontier(counts(final(wrapper).through_frontiers), final(wrapper).trace.through@),
            is_positive_frontier(counts(old(wrapper).advance_frontiers), old(wrapper).trace.advance@)
                ==> final(wrapper).trace.advance@ == old(wrapper).trace.advance@,
            is_positive_frontier(counts(old(wrapper).through_frontiers), old(wrapper).trace.through@)
                ==> final(wrapper).trace.through@ == old(wrapper).trace.through@,
    {
        let ghost hs = wrapper.holds@;
        let ghost i = self.index as int;
        let ghost old_box = *wrapper;
        let advance = self.advance_held(wrapper);
        let through = self.through_held(wrapper);
        proof {
            lemma_held_update(hs, i, None, 0, true);
            assert forall|t: u64| #[trigger] count_in(counts(wrapper.advance_frontiers), t) + occurrences(advance@, t) <= i64::MAX by {
                lemma_held_bounds(hs, t, true);
                lemma_held_bounds(hs.update(i, None), t, true);
                lemma_occurrences_len(advance@, t);
            }
            assert forall|t: u64| #[trigger] count_in(counts(wrapper.through_frontiers), t) + occurrences(through@, t) <= i64::MAX by {
                lemma_held_bounds(hs, t, false);
                lemma_held_bounds(hs.update(i, None), t, false);
                lemma_occurrences_len(through@, t);
            }
        }
        let none: Vec<u64> = Vec::new();
        proof {
            assert forall|t: u64| #[trigger] count_in(counts(wrapper.advance_frontiers), t) - occurrences(none@, t) >= 0 by {
                lemma_held_bounds(hs, t, true);
            }
            assert forall|t: u64| #[trigger] count_in(counts(wrapper.through_frontiers), t) - occurrences(none@, t) >= 0 by {
                lemma_held_bounds(hs, t, false);
            }
        }
        wrapper.adjust_advance_frontier(none.as_slice(), advance.as_slice());
        wrapper.adjust_through_frontier(none.as_slice(), through.as_slice());
        let h = Holds { advance, through };
        let ghost x = Some(h);
        proof {
            assert forall|t: u64| (#[trigger] count_in(counts(old_box.advance_frontiers), t) > 0) == (count_in(
                counts(wrapper.advance_frontiers), t) > 0) by {
                lemma_held_member(hs, i, t, true);
                lemma_occurrences_len(advance@, t);
            }
            assert forall|t: u64| (#[trigger] count_in(counts(old_box.through_frontiers), t) > 0) == (count_in(
                counts(wrapper.through_frontiers), t) > 0) by {
                lemma_held_member(hs, i, t, false);
                lemma_occurrences_len(through@, t);
            }
            if is_positive_frontier(counts(old_box.advance_frontiers), old_box.trace.advance@) {
                lemma_positive_frontier_unique(counts(old_box.advance_frontiers), counts(wrapper.advance_frontiers),
                    old_box.trace.advance@, wrapper.trace.advance@);
            }
            if is_positive_frontier(counts(old_box.through_frontiers), old_box.trace.through@) {
                lemma_positive_frontier_unique(counts(old_box.through_frontiers), counts(wrapper.through_frontiers),
                    old_box.trace.through@, wrapper.trace.through@);
            }
        }
        let index = wrapper.holds.len();
        wrapper.holds.push(Some(h));
        proof {
            assert(wrapper.holds@.drop_last() =~= hs);
            assert(wrapper.holds@.last() == x);
            assert(wrapper.holds@.take(hs.len() as int) =~= hs);
            lemma_held_bounds(hs.update(i, None), 0, true);
            assert forall|t: u64| #[trigger] count_in(counts(wrapper.advance_frontiers), t) == held(wrapper.holds@, t, true) by {
                assert(held(wrapper.holds@, t, true) == held(hs, t, true) + contribution(x, t, true));
            }
            assert forall|t: u64| #[trigger] count_in(counts(wrapper.through_frontiers), t) == held(wrapper.holds@, t, false) by {
                assert(held(wrapper.holds@, t, false) == held(hs, t, false) + contribution(x, t, false));
            }
        }
        TraceRc { index }
    }

    /// Drops this handle: the frontiers it holds are counted out.
    pub fn drop(self, wrapper: &mut TraceBox)
        requires
            old(wrapper).wf(),
            self.is_live(old(wrapper)),
        ensures
            final(wrapper).wf(),
            final(wrapper).holds@ == old(wrapper).holds@.update(self.index as int, None),
            compacted(old(wrapper).trace.batches@, final(wrapper).trace.batches@, final(wrapper).trace.advance@),
            is_positive_frontier(counts(final(wrapper).advance_frontiers), final(wrapper).trace.advance@),
            is_positive_frontier(counts(final(wrapper).through_frontiers), final(wrapper).trace.through@),
    {
        let ghost hs = wrapper.holds@;
        let ghost i = self.index as int;
        let advance = self.advance_held(wrapper);
        let through = self.through_held(wrapper);
        let none: Vec<u64> = Vec::new();
        proof {
            assert forall|t: u64| #[trigger] count_in(counts(wrapper.advance_frontiers), t) - occurrences(advance@, t) >= 0 by {
                lemma_held_member(hs, i, t, true);
            }
            assert forall|t: u64| #[trigger] count_in(counts(wrapper.through_frontiers), t) - occurrences(through@, t) >= 0 by {
                lemma_held_member(hs, i, t, false);
            }
            assert forall|t: u64| #[trigger] count_in(counts(wrapper.advance_frontiers), t) + occurrences(none@, t) <= i64::MAX by {
                lemma_held_bounds(hs, t, true);
            }
        }
        wrapper.adjust_advance_frontier(advance.as_slice(), none.as_slice());
        proof {
            assert forall|t: u64| #[trigger] count_in(counts(wrapper.through_frontiers), t) + occurrences(none@, t) <= i64::MAX by {
                lemma_held_bounds(hs, t, false);
            }
        }
        wrapper.adjust_through_frontier(through.as_slice(), none.as_slice());
        wrapper.holds.set(self.index, None);
        proof {
            lemma_held_update(hs, i, None, 0, true);
            assert forall|t: u64| #[trigger] count_in(counts(wrapper.advance_frontiers), t) == held(wrapper.holds@, t, true) by {
                lemma_held_update(hs, i, None, t, true);
            }
            assert forall|t: u64| #[trigger] count_in(counts(wrapper.through_frontiers), t) == held(wrapper.holds@, t, false) by {
                lemma_held_update(hs, i, None, t, false);
            }
        }
    }
}

} // verus!
