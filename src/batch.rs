use vstd::prelude::*;
use crate::order::{Sortable, KeyValTime};
use crate::consolidation::{
    mass, abs_total, sorted_strict, all_nonzero, is_consolidation, consolidated, lemma_mass_concat,
    lemma_abs_total_sums_fit,
};
use crate::cursor::BatchCursor;
use crate::lattice::{advanced, advance_by, in_advance_of, is_antichain, lemma_advance_keeps_order};

verus! {

/// An update: its position (key, value, time) and its diff.
pub type Update = (KeyValTime, i64);

/// A copy of a frontier.
pub fn copy_frontier(f: &[u64]) -> (r: Vec<u64>)
    ensures
        r@ == f@,
{
    let mut r: Vec<u64> = Vec::new();
    let mut i: usize = 0;
    while i < f.len()
        invariant
            i <= f.len(),
            r@ == f@.take(i as int),
        decreases f.len() - i,
    {
        r.push(f[i]);
        i += 1;
        assert(r@ =~= f@.take(i as int));
    }
    assert(f@.take(i as int) =~= f@);
    r
}

/// A copy of a run of updates.
pub fn copy_updates(s: &Vec<Update>) -> (r: Vec<Update>)
    ensures
        r@ == s@,
{
    let mut r: Vec<Update> = Vec::new();
    let mut i: usize = 0;
    while i < s.len()
        invariant
            i <= s.len(),
            r@ == s@.take(i as int),
        decreases s.len() - i,
    {
        r.push(s[i]);
        i += 1;
        assert(r@ =~= s@.take(i as int));
    }
    assert(s@.take(i as int) =~= s@);
    r
}

/// Sum of the diffs of `s` at key `k` and value `v` whose time is at most `q`.
pub open spec fn accumulation(s: Seq<Update>, k: u64, v: u64, q: u64) -> int {
    mass(s, |x: KeyValTime| x.key == k && x.val == v && x.time <= q)
}

/// `x` with its time advanced by `f`.
pub open spec fn advance_position(x: KeyValTime, f: Seq<u64>) -> KeyValTime {
    KeyValTime { key: x.key, val: x.val, time: advanced(x.time, f) }
}

/// Every update of `s` with its time advanced by `f`.
pub open spec fn advance_updates(s: Seq<Update>, f: Seq<u64>) -> Seq<Update> {
    s.map_values(|u: Update| (advance_position(u.0, f), u.1))
}

/// The frontier of the times that are in advance of `a` and of `b`: the
/// minimal elements of both, without repeats.
pub open spec fn is_meet(a: Seq<u64>, b: Seq<u64>, m: Seq<u64>) -> bool {
    &&& m.no_duplicates()
    &&& forall|x: u64| #[trigger] m.contains(x) <==> ((a + b).contains(x) && forall|i: int|
        0 <= i < (a + b).len() ==> !(#[trigger] (a + b)[i] < x))
}

/// The meet of two frontiers: the minimal elements of both.
pub fn meet(a: &[u64], b: &[u64]) -> (m: Vec<u64>)
    ensures
        is_meet(a@, b@, m@),
{
    let mut all = copy_frontier(a);
    let mut tail = copy_frontier(b);
    all.append(&mut tail);
    let ghost s = a@ + b@;
    assert(all@ =~= s);
    let mut m: Vec<u64> = Vec::new();
    let mut i: usize = 0;
    while i < all.len()
        invariant
            i <= all.len(),
            all@ == s,
            m@.no_duplicates(),
            forall|x: u64| #[trigger] m@.contains(x) <==> (s.take(i as int).contains(x) && forall|j: int|
                0 <= j < s.len() ==> !(#[trigger] s[j] < x)),
        decreases all.len() - i,
    {
        let x = all[i];
        let mut minimal = true;
        let mut j: usize = 0;
        while j < all.len()
            invariant
                j <= all.len(),
                all@ == s,
                minimal == forall|l: int| 0 <= l < j ==> !(#[trigger] s[l] < x),
            decreases all.len() - j,
        {
            if all[j] < x {
                minimal = false;
            }
            j += 1;
        }
        let mut seen = false;
        let mut l: usize = 0;
        while l < m.len()
            invariant
                l <= m.len(),
                seen == exists|z: int| 0 <= z < l && #[trigger] m@[z] == x,
            decreases m.len() - l,
        {
            if m[l] == x {
                seen = true;
            }
            l += 1;
        }
        let ghost before = m@;
        assert(s.take(i + 1) =~= s.take(i as int).push(x));
        if minimal && !seen {
            m.push(x);
            assert forall|y: u64| #[trigger] m@.contains(y) <==> (s.take(i + 1).contains(y) && forall|j: int|
                0 <= j < s.len() ==> !(#[trigger] s[j] < y)) by {
                if y == x {
                    assert(m@[m@.len() - 1] == x);
                    assert(s.take(i + 1)[i as int] == x);
                } else {
                    if m@.contains(y) {
                        let z = choose|z: int| 0 <= z < m@.len() && #[trigger] m@[z] == y;
                        assert(before[z] == y);
                    }
                    if s.take(i + 1).contains(y) {
                        let z = choose|z: int| 0 <= z < s.take(i + 1).len() && #[trigger] s.take(i + 1)[z] == y;
                        assert(s.take(i as int)[z] == y);
                    }
                    if before.contains(y) {
                        let z = choose|z: int| 0 <= z < before.len() && #[trigger] before[z] == y;
                        assert(m@[z] == y);
                    }
                    if s.take(i as int).contains(y) {
                        let z = choose|z: int| 0 <= z < i && #[trigger] s.take(i as int)[z] == y;
                        assert(s.take(i + 1)[z] == y);
                    }
                }
            }
        } else {
            assert forall|y: u64| #[trigger] m@.contains(y) <==> (s.take(i + 1).contains(y) && forall|j: int|
                0 <= j < s.len() ==> !(#[trigger] s[j] < y)) by {
                if y == x && !minimal {
                    let w = choose|l: int| 0 <= l < s.len() && #[trigger] s[l] < x;
                    assert(s[w] < x);
                }
                if y != x && s.take(i + 1).contains(y) {
                    let z = choose|z: int| 0 <= z < s.take(i + 1).len() && #[trigger] s.take(i + 1)[z] == y;
                    assert(s.take(i as int)[z] == y);
                }
                if y != x && s.take(i as int).contains(y) {
                    let z = choose|z: int| 0 <= z < i && #[trigger] s.take(i as int)[z] == y;
                    assert(s.take(i + 1)[z] == y);
                }
                if y == x && seen {
                    let z = choose|z: int| 0 <= z < m@.len() && #[trigger] m@[z] == x;
                    assert(m@.contains(x));
                }
            }
        }
        i += 1;
    }
    assert(s.take(i as int) =~= s);
    m
}

/// The time interval of a batch and the frontier its times were advanced by.
pub struct Description {
    /// Every time in the batch is in advance of `lower`.
    pub lower: Vec<u64>,
    /// No time in the batch is in advance of `upper`.
    pub upper: Vec<u64>,
    /// The frontier the batch's times have been advanced by.
    pub since: Vec<u64>,
}

impl Description {
    pub fn new(lower: &[u64], upper: &[u64], since: &[u64]) -> (r: Description)
        ensures
            r.lower@ == lower@,
            r.upper@ == upper@,
            r.since@ == since@,
    {
        Description { lower: copy_frontier(lower), upper: copy_frontier(upper), since: copy_frontier(since) }
    }

    pub fn lower(&self) -> (r: &[u64])
        ensures
            r@ == self.lower@,
    {
        self.lower.as_slice()
    }

    pub fn upper(&self) -> (r: &[u64])
        ensures
            r@ == self.upper@,
    {
        self.upper.as_slice()
    }

    pub fn since(&self) -> (r: &[u64])
        ensures
            r@ == self.since@,
    {
        self.since.as_slice()
    }

    pub fn duplicate(&self) -> (r: Description)
        ensures
            r.lower@ == self.lower@,
            r.upper@ == self.upper@,
            r.since@ == self.since@,
    {
        Description::new(self.lower.as_slice(), self.upper.as_slice(), self.since.as_slice())
    }
}

/// An immutable batch: a description and a run of updates sorted by
/// (key, value, time), with one update per position and no zero diff.
pub struct OrdBatch {
    pub desc: Description,
    pub updates: Vec<Update>,
}

impl OrdBatch {
    pub open spec fn wf(&self) -> bool {
        sorted_strict(self.updates@) && all_nonzero(self.updates@)
    }

    /// `r` is this batch with its times advanced by `f` and consolidated.
    pub open spec fn is_advance(&self, f: Seq<u64>, r: OrdBatch) -> bool {
        &&& r.desc.lower@ == self.desc.lower@
        &&& r.desc.upper@ == self.desc.upper@
        &&& r.desc.since@ == f
        &&& is_consolidation(advance_updates(self.updates@, f), r.updates@)
    }

    /// `r` holds the updates of `self` followed by those of `other`.
    pub open spec fn is_merge(&self, other: &OrdBatch, r: OrdBatch) -> bool {
        &&& r.desc.lower@ == self.desc.lower@
        &&& r.desc.upper@ == other.desc.upper@
        &&& is_meet(self.desc.since@, other.desc.since@, r.desc.since@)
        &&& is_consolidation(self.updates@ + other.updates@, r.updates@)
    }

    /// A batch with no updates.
    pub fn empty(lower: &[u64], upper: &[u64], since: &[u64]) -> (r: OrdBatch)
        ensures
            r.wf(),
            r.updates@.len() == 0,
            r.desc.lower@ == lower@,
            r.desc.upper@ == upper@,
            r.desc.since@ == since@,
    {
        OrdBatch { desc: Description::new(lower, upper, since), updates: Vec::new() }
    }

    /// A copy of the batch.
    pub fn duplicate(&self) -> (r: OrdBatch)
        ensures
            r.desc.lower@ == self.desc.lower@,
            r.desc.upper@ == self.desc.upper@,
            r.desc.since@ == self.desc.since@,
            r.updates@ == self.updates@,
    {
        OrdBatch { desc: self.desc.duplicate(), updates: copy_updates(&self.updates) }
    }

}

/// A batch of updates whose contents may be read.
pub trait BatchReader: Sized {
    /// The updates of the batch, in order.
    spec fn contents(&self) -> Seq<Update>;

    spec fn lower_frontier(&self) -> Seq<u64>;

    spec fn upper_frontier(&self) -> Seq<u64>;

    /// The number of updates in the batch.
    fn len(&self) -> (r: usize)
        ensures
            r == self.contents().len(),
    ;

    /// Every time in the batch is in advance of `lower`.
    fn lower(&self) -> (r: &[u64])
        ensures
            r@ == self.lower_frontier(),
    ;

    /// No time in the batch is in advance of `upper`.
    fn upper(&self) -> (r: &[u64])
        ensures
            r@ == self.upper_frontier(),
    ;

    /// A cursor at the start of the batch, which is its own storage.
    fn cursor(&self) -> (r: BatchCursor)
        ensures
            r.is_start(),
    ;
}

impl BatchReader for OrdBatch {
    open spec fn contents(&self) -> Seq<Update> {
        self.updates@
    }

    open spec fn lower_frontier(&self) -> Seq<u64> {
        self.desc.lower@
    }

    open spec fn upper_frontier(&self) -> Seq<u64> {
        self.desc.upper@
    }

    fn len(&self) -> (r: usize) {
        self.updates.len()
    }

    fn lower(&self) -> (r: &[u64]) {
        self.desc.lower()
    }

    fn upper(&self) -> (r: &[u64]) {
        self.desc.upper()
    }

    fn cursor(&self) -> (r: BatchCursor) {
        BatchCursor::new()
    }
}

/// An update as a builder takes it: key, value, time and diff.
pub open spec fn as_update(e: (u64, u64, u64, i64)) -> Update {
    (KeyValTime { key: e.0, val: e.1, time: e.2 }, e.3)
}

/// An immutable collection of updates that can be merged and compacted.
pub trait Batch: BatchReader {
    spec fn since_frontier(&self) -> Seq<u64>;

    spec fn valid(&self) -> bool;

    /// Merges two consecutive batches: `self.upper` must equal `other.lower`.
    fn merge(&self, other: &Self) -> (r: Self)
        requires
            self.upper_frontier() == other.lower_frontier(),
            abs_total(self.contents() + other.contents()) <= i64::MAX,
        ensures
            r.valid(),
            r.lower_frontier() == self.lower_frontier(),
            r.upper_frontier() == other.upper_frontier(),
            is_meet(self.since_frontier(), other.since_frontier(), r.since_frontier()),
            is_consolidation(self.contents() + other.contents(), r.contents()),
    ;

    /// Advances every time by `frontier` and consolidates, giving a new batch
    /// with the same interval whose `since` is `frontier`.
    fn advance_ref(&self, frontier: &[u64]) -> (r: Self)
        requires
            abs_total(self.contents()) <= i64::MAX,
        ensures
            r.valid(),
            r.lower_frontier() == self.lower_frontier(),
            r.upper_frontier() == self.upper_frontier(),
            r.since_frontier() == frontier@,
            is_consolidation(advance_updates(self.contents(), frontier@), r.contents()),
            abs_total(r.contents()) <= abs_total(self.contents()),
    ;

    /// Advances this batch in place by `frontier`.
    fn advance_mut(&mut self, frontier: &[u64])
        requires
            abs_total(old(self).contents()) <= i64::MAX,
        ensures
            final(self).valid(),
            final(self).lower_frontier() == old(self).lower_frontier(),
            final(self).upper_frontier() == old(self).upper_frontier(),
            final(self).since_frontier() == frontier@,
            is_consolidation(advance_updates(old(self).contents(), frontier@), final(self).contents()),
            abs_total(final(self).contents()) <= abs_total(old(self).contents()),
    ;
}

impl Batch for OrdBatch {
    open spec fn since_frontier(&self) -> Seq<u64> {
        self.desc.since@
    }

    open spec fn valid(&self) -> bool {
        self.wf()
    }

    /// Merges two consecutive batches: `self.upper` must equal `other.lower`.
    fn merge(&self, other: &OrdBatch) -> (r: OrdBatch)
    {
        let mut all = copy_updates(&self.updates);
        let mut tail = copy_updates(&other.updates);
        all.append(&mut tail);
        assert(all@.subrange(0, all.len() as int) =~= self.updates@ + other.updates@);
        proof {
            lemma_abs_total_sums_fit(all@);
        }
        let updates = consolidated(&all, 0);
        let since = meet(self.desc.since(), other.desc.since());
        OrdBatch {
            desc: Description { lower: copy_frontier(self.desc.lower()), upper: copy_frontier(other.desc.upper()), since },
            updates,
        }
    }

    /// Advances every time by `frontier` and consolidates, giving a new batch
    /// with the same interval whose `since` is `frontier`.
    fn advance_ref(&self, frontier: &[u64]) -> (r: OrdBatch)
    {
        let mut times: Vec<Update> = Vec::new();
        let mut i: usize = 0;
        while i < self.updates.len()
            invariant
                i <= self.updates.len(),
                times@ == advance_updates(self.updates@.take(i as int), frontier@),
                abs_total(times@) == abs_total(self.updates@.take(i as int)),
            decreases self.updates.len() - i,
        {
            let (x, d) = self.updates[i];
            let t = advance_by(x.time, frontier);
            let ghost prev = times@;
            times.push((KeyValTime { key: x.key, val: x.val, time: t }, d));
            proof {
                assert(self.updates@.take(i + 1).drop_last() =~= self.updates@.take(i as int));
                assert(times@.drop_last() =~= prev);
            }
            i += 1;
            assert(times@ =~= advance_updates(self.updates@.take(i as int), frontier@));
        }
        assert(self.updates@.take(i as int) =~= self.updates@);
        assert(times@.subrange(0, times.len() as int) =~= times@);
        proof {
            lemma_abs_total_sums_fit(times@);
        }
        let updates = consolidated(&times, 0);
        OrdBatch {
            desc: Description::new(self.desc.lower(), self.desc.upper(), frontier),
            updates,
        }
    }

    /// Advances this batch in place by `frontier`.
    fn advance_mut(&mut self, frontier: &[u64])
    {
        *self = self.advance_ref(frontier);
    }
}

/// Builds a batch from updates pushed in (key, value, time) order.
pub trait Builder: Sized {
    /// The updates pushed so far.
    spec fn pushed(&self) -> Seq<Update>;

    /// An empty builder.
    fn new() -> (r: Self)
        ensures
            r.pushed().len() == 0,
    ;

    /// An empty builder with room for `cap` updates.
    fn with_capacity(cap: usize) -> (r: Self)
        ensures
            r.pushed().len() == 0,
    ;

    /// Adds an update after those pushed so far.
    fn push(&mut self, element: (u64, u64, u64, i64))
        requires
            sorted_strict(old(self).pushed()),
            all_nonzero(old(self).pushed()),
            can_follow(old(self).pushed(), element),
        ensures
            sorted_strict(final(self).pushed()),
            all_nonzero(final(self).pushed()),
            final(self).pushed() == old(self).pushed().push(as_update(element)),
    ;

    /// Adds a run of updates, each after the one before.
    fn extend(&mut self, items: Vec<(u64, u64, u64, i64)>)
        requires
            sorted_strict(old(self).pushed()),
            all_nonzero(old(self).pushed()),
            forall|i: int| 0 <= i < items@.len() ==> (#[trigger] items@[i]).3 != 0,
            forall|i: int| 0 < i < items@.len() ==> as_update(items@[i - 1]).0.precedes(as_update(#[trigger] items@[i]).0),
            items@.len() > 0 ==> can_follow(old(self).pushed(), items@[0]),
        ensures
            sorted_strict(final(self).pushed()),
            all_nonzero(final(self).pushed()),
            final(self).pushed() == old(self).pushed() + items@.map_values(|e: (u64, u64, u64, i64)| as_update(e)),
    ;

    /// The batch of the pushed updates, with the given description.
    fn done(self, lower: &[u64], upper: &[u64], since: &[u64]) -> (r: OrdBatch)
        requires
            sorted_strict(self.pushed()),
            all_nonzero(self.pushed()),
        ensures
            r.wf(),
            r.updates@ == self.pushed(),
            r.desc.lower@ == lower@,
            r.desc.upper@ == upper@,
            r.desc.since@ == since@,
    ;
}

/// `e` may be pushed after `s`: its diff is not zero and it comes after the
/// last update of `s`.
pub open spec fn can_follow(s: Seq<Update>, e: (u64, u64, u64, i64)) -> bool {
    &&& e.3 != 0
    &&& s.len() > 0 ==> s.last().0.precedes(as_update(e).0)
}

/// Collects unordered updates and seals them into batches.
pub trait Batcher: Sized {
    /// The updates not yet sealed, in arrival order.
    spec fn held(&self) -> Seq<Update>;

    /// The upper frontier of the last sealed batch.
    spec fn sealed_to(&self) -> Seq<u64>;

    /// A batcher holding nothing, whose first batch starts at the least time.
    fn new() -> (r: Self)
        ensures
            r.held().len() == 0,
            r.sealed_to() == seq![0u64],
    ;

    /// Takes every update out of `batch`.
    fn push_batch(&mut self, batch: &mut Vec<((u64, u64), u64, i64)>)
        ensures
            final(batch)@.len() == 0,
            final(self).sealed_to() == old(self).sealed_to(),
            final(self).held() == old(self).held() + old(batch)@.map_values(|e: ((u64, u64), u64, i64)| as_pending(e)),
    ;

    /// Seals the updates whose times are not in advance of `upper` into a
    /// batch from the previous upper frontier to `upper`; the others stay.
    fn seal(&mut self, upper: &[u64]) -> (r: OrdBatch)
        requires
            abs_total(old(self).held()) <= i64::MAX,
        ensures
            r.wf(),
            is_consolidation(ready(old(self).held(), upper@), r.updates@),
            r.desc.lower@ == old(self).sealed_to(),
            r.desc.upper@ == upper@,
            r.desc.since@ == seq![0u64],
            final(self).held() == retained(old(self).held(), upper@),
            final(self).sealed_to() == upper@,
    ;

    /// The least time of an update still held, if any.
    fn frontier(&self) -> (r: Vec<u64>)
        ensures
            r@.len() == 0 <==> self.held().len() == 0,
            r@.len() <= 1,
            r@.len() == 1 ==> (exists|i: int| 0 <= i < self.held().len() && #[trigger] self.held()[i].0.time == r@[0])
                && forall|i: int| 0 <= i < self.held().len() ==> r@[0] <= #[trigger] self.held()[i].0.time,
    ;
}

/// Builds a batch from updates pushed in (key, value, time) order.
pub struct OrdBuilder {
    pub updates: Vec<Update>,
}

impl Builder for OrdBuilder {
    open spec fn pushed(&self) -> Seq<Update> {
        self.updates@
    }

    /// `e` may follow what was pushed so far.
    fn new() -> (r: OrdBuilder)
    {
        OrdBuilder { updates: Vec::new() }
    }

    fn with_capacity(cap: usize) -> (r: OrdBuilder)
    {
        OrdBuilder { updates: Vec::with_capacity(cap) }
    }

    /// Adds an update after those pushed so far.
    fn push(&mut self, element: (u64, u64, u64, i64))
    {
        let ghost prev = self.updates@;
        self.updates.push((KeyValTime { key: element.0, val: element.1, time: element.2 }, element.3));
        proof {
            assert forall|x: int, y: int| 0 <= x < y < self.updates@.len() implies (#[trigger] self.updates@[x]).0.precedes(
                (#[trigger] self.updates@[y]).0,
            ) by {
                if y == prev.len() && x < prev.len() - 1 {
                    KeyValTime::lemma_strict_total(prev[x].0, prev.last().0, as_update(element).0);
                }
            }
        }
    }

    /// Adds a run of updates, each after the one before.
    fn extend(&mut self, items: Vec<(u64, u64, u64, i64)>)
    {
        let mut i: usize = 0;
        while i < items.len()
            invariant
                i <= items@.len(),
                sorted_strict(self.updates@),
                all_nonzero(self.updates@),
                forall|j: int| 0 <= j < items@.len() ==> (#[trigger] items@[j]).3 != 0,
                forall|j: int| 0 < j < items@.len() ==> as_update(items@[j - 1]).0.precedes(as_update(#[trigger] items@[j]).0),
                items@.len() > 0 ==> can_follow(old(self).updates@, items@[0]),
                self.updates@ == old(self).updates@ + items@.take(i as int).map_values(|e: (u64, u64, u64, i64)| as_update(e)),
            decreases items.len() - i,
        {
            proof {
                if i > 0 {
                    assert(self.updates@.last() == as_update(items@[i - 1]));
                }
            }
            self.push(items[i]);
            i += 1;
            assert(self.updates@ =~= old(self).updates@ + items@.take(i as int).map_values(|e: (u64, u64, u64, i64)| as_update(e)));
        }
        assert(items@.take(i as int) =~= items@);
    }

    /// The batch of the pushed updates, with the given description.
    fn done(self, lower: &[u64], upper: &[u64], since: &[u64]) -> (r: OrdBatch)
    {
        OrdBatch { desc: Description::new(lower, upper, since), updates: self.updates }
    }
}

/// The updates of `s` whose time is not in advance of `upper`.
pub open spec fn ready(s: Seq<Update>, upper: Seq<u64>) -> Seq<Update>
    decreases s.len(),
{
    if s.len() == 0 {
        s
    } else if in_advance_of(upper, s.last().0.time) {
        ready(s.drop_last(), upper)
    } else {
        ready(s.drop_last(), upper).push(s.last())
    }
}

/// The updates of `s` whose time is in advance of `upper`.
pub open spec fn retained(s: Seq<Update>, upper: Seq<u64>) -> Seq<Update>
    decreases s.len(),
{
    if s.len() == 0 {
        s
    } else if in_advance_of(upper, s.last().0.time) {
        retained(s.drop_last(), upper).push(s.last())
    } else {
        retained(s.drop_last(), upper)
    }
}

pub proof fn lemma_ready_abs_total(s: Seq<Update>, upper: Seq<u64>)
    ensures
        abs_total(ready(s, upper)) <= abs_total(s),
    decreases s.len(),
{
    if s.len() > 0 {
        lemma_ready_abs_total(s.drop_last(), upper);
        let r = ready(s.drop_last(), upper);
        if !in_advance_of(upper, s.last().0.time) {
            assert(r.push(s.last()).drop_last() =~= r);
        }
    }
}

/// An update as a batcher takes it: ((key, value), time, diff).
pub open spec fn as_pending(e: ((u64, u64), u64, i64)) -> Update {
    (KeyValTime { key: e.0.0, val: e.0.1, time: e.1 }, e.2)
}

/// Collects unordered updates and seals them into batches.
pub struct OrdBatcher {
    /// Updates not yet sealed, in arrival order.
    pub pending: Vec<Update>,
    /// The upper frontier of the last sealed batch.
    pub lower: Vec<u64>,
}

impl Batcher for OrdBatcher {
    open spec fn held(&self) -> Seq<Update> {
        self.pending@
    }

    open spec fn sealed_to(&self) -> Seq<u64> {
        self.lower@
    }

    /// A batcher holding nothing, whose first batch starts at the least time.
    fn new() -> (r: OrdBatcher)
    {
        OrdBatcher { pending: Vec::new(), lower: vec![0u64] }
    }

    /// Takes every update out of `batch`.
    fn push_batch(&mut self, batch: &mut Vec<((u64, u64), u64, i64)>)
    {
        let mut i: usize = 0;
        while i < batch.len()
            invariant
                i <= batch@.len(),
                batch@ == old(batch)@,
                self.lower@ == old(self).lower@,
                self.pending@ == old(self).pending@ + batch@.take(i as int).map_values(|e: ((u64, u64), u64, i64)| as_pending(e)),
            decreases batch.len() - i,
        {
            let e = batch[i];
            self.pending.push((KeyValTime { key: e.0.0, val: e.0.1, time: e.1 }, e.2));
            i += 1;
            assert(self.pending@ =~= old(self).pending@ + batch@.take(i as int).map_values(|e: ((u64, u64), u64, i64)| as_pending(e)));
        }
        assert(batch@.take(i as int) =~= batch@);
        batch.clear();
    }

    /// Seals the updates whose times are not in advance of `upper` into a
    /// batch from the previous upper frontier to `upper`; the others stay.
    fn seal(&mut self, upper: &[u64]) -> (r: OrdBatch)
    {
        let mut out: Vec<Update> = Vec::new();
        let mut keep: Vec<Update> = Vec::new();
        let mut i: usize = 0;
        while i < self.pending.len()
            invariant
                i <= self.pending@.len(),
                out@ == ready(self.pending@.take(i as int), upper@),
                keep@ == retained(self.pending@.take(i as int), upper@),
            decreases self.pending.len() - i,
        {
            let u = self.pending[i];
            let mut j: usize = 0;
            let mut after = false;
            while j < upper.len()
                invariant
                    j <= upper.len(),
                    after == exists|l: int| 0 <= l < j && #[trigger] upper@[l] <= u.0.time,
                decreases upper.len() - j,
            {
                if upper[j] <= u.0.time {
                    after = true;
                }
                j += 1;
            }
            assert(self.pending@.take(i + 1).drop_last() =~= self.pending@.take(i as int));
            if after {
                keep.push(u);
            } else {
                out.push(u);
            }
            i += 1;
        }
        assert(self.pending@.take(i as int) =~= self.pending@);
        proof {
            lemma_ready_abs_total(self.pending@, upper@);
            assert(out@.subrange(0, out@.len() as int) =~= out@);
        }
        proof {
            lemma_abs_total_sums_fit(out@);
        }
        let updates = consolidated(&out, 0);
        let lower = copy_frontier(self.lower.as_slice());
        self.pending = keep;
        self.lower = copy_frontier(upper);
        OrdBatch { desc: Description { lower, upper: copy_frontier(upper), since: vec![0u64] }, updates }
    }

    /// The least time of an update still held, if any.
    fn frontier(&self) -> (r: Vec<u64>)
    {
        if self.pending.len() == 0 {
            return Vec::new();
        }
        let mut least: u64 = self.pending[0].0.time;
        let mut i: usize = 1;
        while i < self.pending.len()
            invariant
                1 <= i <= self.pending@.len(),
                exists|l: int| 0 <= l < i && #[trigger] self.pending@[l].0.time == least,
                forall|l: int| 0 <= l < i ==> least <= #[trigger] self.pending@[l].0.time,
            decreases self.pending.len() - i,
        {
            if self.pending[i].0.time < least {
                least = self.pending[i].0.time;
            }
            i += 1;
        }
        vec![least]
    }
}

pub proof fn lemma_mass_congruent<T>(s: Seq<(T, i64)>, p1: spec_fn(T) -> bool, p2: spec_fn(T) -> bool)
    requires
        forall|i: int| 0 <= i < s.len() ==> p1((#[trigger] s[i]).0) == p2(s[i].0),
    ensures
        mass(s, p1) == mass(s, p2),
    decreases s.len(),
{
    if s.len() > 0 {
        lemma_mass_congruent(s.drop_last(), p1, p2);
    }
}

pub proof fn lemma_mass_advance(s: Seq<Update>, f: Seq<u64>, p: spec_fn(KeyValTime) -> bool)
    ensures
        mass(advance_updates(s, f), p) == mass(s, |x: KeyValTime| p(advance_position(x, f))),
    decreases s.len(),
{
    if s.len() > 0 {
        assert(advance_updates(s, f).drop_last() =~= advance_updates(s.drop_last(), f));
        lemma_mass_advance(s.drop_last(), f, p);
    }
}

/// Advancing a batch by an antichain keeps the accumulation of every (key,
/// value) at every time in advance of the antichain.
pub proof fn lemma_advance_accumulation(b: OrdBatch, f: Seq<u64>, r: OrdBatch, k: u64, v: u64, q: u64)
    requires
        b.is_advance(f, r),
        is_antichain(f),
        in_advance_of(f, q),
    ensures
        accumulation(r.updates@, k, v, q) == accumulation(b.updates@, k, v, q),
{
    let p = |x: KeyValTime| x.key == k && x.val == v && x.time <= q;
    let s = b.updates@;
    lemma_mass_advance(s, f, p);
    assert forall|i: int| 0 <= i < s.len() implies p(advance_position((#[trigger] s[i]).0, f)) == p(s[i].0) by {
        lemma_advance_keeps_order(s[i].0.time, f, q);
    }
    lemma_mass_congruent(s, |x: KeyValTime| p(advance_position(x, f)), p);
    assert(mass(r.updates@, p) == mass(advance_updates(s, f), p));
}

/// The accumulation over a merge is the sum of the accumulations over the
/// two merged batches.
pub proof fn lemma_merge_accumulation(a: OrdBatch, b: OrdBatch, r: OrdBatch, k: u64, v: u64, q: u64)
    requires
        a.is_merge(&b, r),
    ensures
        accumulation(r.updates@, k, v, q) == accumulation(a.updates@, k, v, q) + accumulation(
            b.updates@,
            k,
            v,
            q,
        ),
{
    let p = |x: KeyValTime| x.key == k && x.val == v && x.time <= q;
    lemma_mass_concat(a.updates@, b.updates@, p);
    assert(mass(r.updates@, p) == mass(a.updates@ + b.updates@, p));
}

} // verus!
