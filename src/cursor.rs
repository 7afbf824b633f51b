use vstd::prelude::*;
use crate::batch::{OrdBatch, Update};
use crate::order::Sortable;

verus! {

/// `e` ends the run of updates at the key of `s[i]`, from `i` on.
pub open spec fn is_key_run_end(s: Seq<Update>, i: int, e: int) -> bool {
    &&& 0 <= i < e <= s.len()
    &&& forall|j: int| i <= j < e ==> (#[trigger] s[j]).0.key == s[i].0.key
    &&& e < s.len() ==> s[e].0.key != s[i].0.key
}

/// `e` ends the run of updates at the key and value of `s[i]`, from `i` on.
pub open spec fn is_val_run_end(s: Seq<Update>, i: int, e: int) -> bool {
    &&& 0 <= i < e <= s.len()
    &&& forall|j: int| i <= j < e ==> (#[trigger] s[j]).0.key == s[i].0.key && s[j].0.val == s[i].0.val
    &&& e < s.len() ==> (s[e].0.key != s[i].0.key || s[e].0.val != s[i].0.val)
}

/// The (time, diff) pairs of a run of updates.
pub open spec fn times_of(s: Seq<Update>) -> Seq<(u64, i64)> {
    s.map_values(|u: Update| (u.0.time, u.1))
}

/// In a well-formed batch, the run of a key and value that starts at `i`
/// and ends at `e` holds every update of the batch at that key and value: a
/// cursor that steps through values meets each (key, value) once, and
/// `map_times` there yields all of its (time, diff) pairs.
pub proof fn lemma_val_run_complete(b: OrdBatch, i: int, e: int)
    requires
        b.wf(),
        is_val_run_end(b.updates@, i, e),
        i == 0 || b.updates@[i - 1].0.key != b.updates@[i].0.key || b.updates@[i - 1].0.val
            != b.updates@[i].0.val,
    ensures
        forall|j: int| 0 <= j < b.updates@.len() ==> ((#[trigger] b.updates@[j]).0.key == b.updates@[i].0.key
            && b.updates@[j].0.val == b.updates@[i].0.val) == (i <= j < e),
{
    let s = b.updates@;
    assert forall|j: int| 0 <= j < s.len() implies ((#[trigger] s[j]).0.key == s[i].0.key && s[j].0.val
        == s[i].0.val) == (i <= j < e) by {
        if j < i {
            assert(s[j].0.precedes(s[i].0));
            if j < i - 1 {
                assert(s[j].0.precedes(s[i - 1].0));
                assert(s[i - 1].0.precedes(s[i].0));
            }
        } else if j > e {
            assert(s[i].0.precedes(s[e].0));
            assert(s[e].0.precedes(s[j].0));
        } else if j == e && e < s.len() {
            assert(s[i].0.precedes(s[e].0));
        }
    }
}

/// A cursor over the updates of a batch, passed to each call as its storage.
/// It stands at a key (`key_pos`, the first update at that key) and, within
/// it, at a value (`val_pos`, the first update at that key and value).
pub struct BatchCursor {
    pub key_pos: usize,
    pub val_pos: usize,
}

impl BatchCursor {
    pub open spec fn is_start(&self) -> bool {
        self.key_pos == 0 && self.val_pos == 0
    }

    pub open spec fn wf(&self, s: Seq<Update>) -> bool {
        self.key_pos <= self.val_pos <= s.len()
    }

    pub open spec fn spec_key_valid(&self, s: Seq<Update>) -> bool {
        self.key_pos < s.len()
    }

    pub open spec fn spec_val_valid(&self, s: Seq<Update>) -> bool {
        self.key_pos < s.len() && self.val_pos < s.len() && s[self.val_pos as int].0.key
            == s[self.key_pos as int].0.key
    }

    /// A cursor at the first key and value.
    pub fn new() -> (r: BatchCursor)
        ensures
            r.is_start(),
    {
        BatchCursor { key_pos: 0, val_pos: 0 }
    }

    pub fn key_valid(&self, storage: &OrdBatch) -> (r: bool)
        ensures
            r == self.spec_key_valid(storage.updates@),
    {
        self.key_pos < storage.updates.len()
    }

    pub fn val_valid(&self, storage: &OrdBatch) -> (r: bool)
        ensures
            r == self.spec_val_valid(storage.updates@),
    {
        self.key_pos < storage.updates.len() && self.val_pos < storage.updates.len()
            && storage.updates[self.val_pos].0.key == storage.updates[self.key_pos].0.key
    }

    pub fn key(&self, storage: &OrdBatch) -> (r: u64)
        requires
            self.spec_key_valid(storage.updates@),
        ensures
            r == storage.updates@[self.key_pos as int].0.key,
    {
        storage.updates[self.key_pos].0.key
    }

    pub fn val(&self, storage: &OrdBatch) -> (r: u64)
        requires
            self.spec_val_valid(storage.updates@),
        ensures
            r == storage.updates@[self.val_pos as int].0.val,
    {
        storage.updates[self.val_pos].0.val
    }

    /// The end of the run of updates at the current key and value.
    fn val_run_end(&self, storage: &OrdBatch) -> (e: usize)
        requires
            self.spec_val_valid(storage.updates@),
        ensures
            is_val_run_end(storage.updates@, self.val_pos as int, e as int),
    {
        let s = &storage.updates;
        let i = self.val_pos;
        assert(i < s.len());
        let mut e: usize = i + 1;
        while e < s.len() && s[e].0.key == s[i].0.key && s[e].0.val == s[i].0.val
            invariant
                i < e <= s.len(),
                forall|j: int| i <= j < e ==> (#[trigger] s@[j]).0.key == s@[i as int].0.key && s@[j].0.val
                    == s@[i as int].0.val,
            decreases s.len() - e,
        {
            e += 1;
        }
        e
    }

    /// The (time, diff) pairs at the current key and value, each once.
    pub fn map_times(&self, storage: &OrdBatch) -> (r: Vec<(u64, i64)>)
        requires
            self.spec_val_valid(storage.updates@),
        ensures
            exists|e: int| is_val_run_end(storage.updates@, self.val_pos as int, e)
                && #[trigger] times_of(storage.updates@.subrange(self.val_pos as int, e)) == r@,
    {
        let e = self.val_run_end(storage);
        let mut r: Vec<(u64, i64)> = Vec::new();
        let mut j: usize = self.val_pos;
        while j < e
            invariant
                self.val_pos <= j <= e <= storage.updates@.len(),
                r@ == times_of(storage.updates@.subrange(self.val_pos as int, j as int)),
            decreases e - j,
        {
            r.push((storage.updates[j].0.time, storage.updates[j].1));
            j += 1;
            assert(r@ =~= times_of(storage.updates@.subrange(self.val_pos as int, j as int)));
        }
        assert(is_val_run_end(storage.updates@, self.val_pos as int, e as int));
        r
    }

    /// Moves to the next value at the current key.
    pub fn step_val(&mut self, storage: &OrdBatch)
        requires
            old(self).wf(storage.updates@),
            old(self).spec_val_valid(storage.updates@),
        ensures
            final(self).wf(storage.updates@),
            final(self).key_pos == old(self).key_pos,
            is_val_run_end(storage.updates@, old(self).val_pos as int, final(self).val_pos as int),
    {
        self.val_pos = self.val_run_end(storage);
    }

    /// Moves to the next key, at its first value.
    pub fn step_key(&mut self, storage: &OrdBatch)
        requires
            old(self).wf(storage.updates@),
            old(self).spec_key_valid(storage.updates@),
        ensures
            final(self).wf(storage.updates@),
            final(self).val_pos == final(self).key_pos,
            is_key_run_end(storage.updates@, old(self).key_pos as int, final(self).key_pos as int),
    {
        let s = &storage.updates;
        let i = self.key_pos;
        assert(i < s.len());
        let mut e: usize = i + 1;
        while e < s.len() && s[e].0.key == s[i].0.key
            invariant
                i < e <= s.len(),
                forall|j: int| i <= j < e ==> (#[trigger] s@[j]).0.key == s@[i as int].0.key,
            decreases s.len() - e,
        {
            e += 1;
        }
        self.key_pos = e;
        self.val_pos = e;
    }

    /// Steps keys forward until the key is at least `key`, or none is left.
    pub fn seek_key(&mut self, storage: &OrdBatch, key: u64)
        requires
            old(self).wf(storage.updates@),
        ensures
            final(self).wf(storage.updates@),
            final(self).key_pos >= old(self).key_pos,
            forall|j: int| old(self).key_pos <= j < final(self).key_pos ==> (#[trigger] storage.updates@[j]).0.key < key,
            final(self).spec_key_valid(storage.updates@) ==> storage.updates@[final(self).key_pos as int].0.key >= key,
            final(self).key_pos == old(self).key_pos ==> final(self).val_pos == old(self).val_pos,
            final(self).key_pos != old(self).key_pos ==> final(self).val_pos == final(self).key_pos,
    {
        while self.key_valid(storage) && self.key(storage) < key
            invariant
                self.wf(storage.updates@),
                self.key_pos >= old(self).key_pos,
                self.key_pos == old(self).key_pos ==> self.val_pos == old(self).val_pos,
                self.key_pos != old(self).key_pos ==> self.val_pos == self.key_pos,
                forall|j: int| old(self).key_pos <= j < self.key_pos ==> (#[trigger] storage.updates@[j]).0.key < key,
            decreases storage.updates@.len() - self.key_pos,
        {
            self.step_key(storage);
        }
    }

    /// Steps values forward at the current key until the value is at least
    /// `val`, or none is left.
    pub fn seek_val(&mut self, storage: &OrdBatch, val: u64)
        requires
            old(self).wf(storage.updates@),
        ensures
            final(self).wf(storage.updates@),
            final(self).key_pos == old(self).key_pos,
            final(self).val_pos >= old(self).val_pos,
            forall|j: int| old(self).val_pos <= j < final(self).val_pos ==> (#[trigger] storage.updates@[j]).0.val < val,
            final(self).spec_val_valid(storage.updates@) ==> storage.updates@[final(self).val_pos as int].0.val >= val,
    {
        while self.val_valid(storage) && self.val(storage) < val
            invariant
                self.wf(storage.updates@),
                self.key_pos == old(self).key_pos,
                self.val_pos >= old(self).val_pos,
                forall|j: int| old(self).val_pos <= j < self.val_pos ==> (#[trigger] storage.updates@[j]).0.val < val,
            decreases storage.updates@.len() - self.val_pos,
        {
            self.step_val(storage);
        }
    }

    /// Back to the first value at the current key.
    pub fn rewind_vals(&mut self, storage: &OrdBatch)
        ensures
            final(self).key_pos == old(self).key_pos,
            final(self).val_pos == old(self).key_pos,
    {
        self.val_pos = self.key_pos;
    }

    /// Back to the first key.
    pub fn rewind_keys(&mut self, storage: &OrdBatch)
        ensures
            final(self).is_start(),
    {
        self.key_pos = 0;
        self.val_pos = 0;
    }
}

} // verus!
