use collection_trace::batch::{Batch, Batcher, BatchReader, Builder, OrdBatch, OrdBatcher, OrdBuilder};
use collection_trace::consolidation::{consolidate, consolidate_by};
use collection_trace::order::KeyValTime;
use collection_trace::cursor::BatchCursor;
use collection_trace::lattice::advance_by;
use collection_trace::rc::TraceRc;
use collection_trace::trace::{OrdTrace, Trace, TraceReader};

const KEY_A: u64 = 1;
const VAL_X: u64 = 10;

fn batch_of(lower: &[u64], upper: &[u64], since: &[u64], updates: &[(u64, u64, u64, i64)]) -> OrdBatch {
    let mut builder = OrdBuilder::new();
    for u in updates {
        builder.push(*u);
    }
    builder.done(lower, upper, since)
}

/// Every (key, value, time, diff) that a cursor over `batch` visits.
fn enumerate(batch: &OrdBatch, cursor: &mut BatchCursor) -> Vec<(u64, u64, u64, i64)> {
    let mut out = Vec::new();
    while cursor.key_valid(batch) {
        while cursor.val_valid(batch) {
            for (t, d) in cursor.map_times(batch) {
                out.push((cursor.key(batch), cursor.val(batch), t, d));
            }
            cursor.step_val(batch);
        }
        cursor.step_key(batch);
    }
    out
}

fn accumulate(batch: &OrdBatch, key: u64, val: u64, q: u64) -> i64 {
    enumerate(batch, &mut batch.cursor())
        .iter()
        .filter(|u| u.0 == key && u.1 == val && u.2 <= q)
        .map(|u| u.3)
        .sum()
}

fn s1_batch() -> OrdBatch {
    batch_of(&[0], &[3], &[0], &[(KEY_A, VAL_X, 0, 1), (KEY_A, VAL_X, 2, -1)])
}

#[test]
fn basic_accumulation() {
    let b = s1_batch();
    assert_eq!(b.len(), 2);
    assert_eq!(accumulate(&b, KEY_A, VAL_X, 0), 1);
    assert_eq!(accumulate(&b, KEY_A, VAL_X, 1), 1);
    assert_eq!(accumulate(&b, KEY_A, VAL_X, 2), 0);
    assert_eq!(accumulate(&b, KEY_A, VAL_X, 3), 0);
}

#[test]
fn compaction_empties_cancelling_updates() {
    let b = s1_batch();
    let c = b.advance_ref(&[2]);
    assert_eq!(c.len(), 0);
    assert_eq!(c.lower(), &[0u64][..]);
    assert_eq!(c.upper(), &[3u64][..]);
    assert_eq!(c.desc.since(), &[2u64][..]);
    assert_eq!(accumulate(&c, KEY_A, VAL_X, 2), accumulate(&b, KEY_A, VAL_X, 2));
}

#[test]
fn advance_keeps_accumulation_above_frontier() {
    let b = batch_of(&[0], &[10], &[0], &[(1, 1, 0, 3), (1, 1, 4, -1), (1, 2, 1, 5), (2, 1, 7, 2)]);
    let c = b.advance_ref(&[4]);
    for q in 4..10 {
        for (k, v) in [(1, 1), (1, 2), (2, 1)] {
            assert_eq!(accumulate(&c, k, v, q), accumulate(&b, k, v, q));
        }
    }
    assert_eq!(enumerate(&c, &mut c.cursor()), vec![(1, 1, 4, 2), (1, 2, 4, 5), (2, 1, 7, 2)]);
    let mut d = b.duplicate();
    d.advance_mut(&[4]);
    assert_eq!(enumerate(&d, &mut d.cursor()), enumerate(&c, &mut c.cursor()));
}

#[test]
fn merge_of_consecutive_batches() {
    let b1 = batch_of(&[0], &[1], &[0], &[(7, 8, 0, 1)]);
    let b2 = batch_of(&[1], &[2], &[0], &[(7, 8, 1, 1)]);
    let m = b1.merge(&b2);
    assert_eq!(m.lower(), &[0u64][..]);
    assert_eq!(m.upper(), &[2u64][..]);
    assert_eq!(enumerate(&m, &mut m.cursor()), vec![(7, 8, 0, 1), (7, 8, 1, 1)]);
    assert_eq!(accumulate(&m, 7, 8, 1), 2);
}

#[test]
fn merge_sums_collisions_and_takes_the_lower_since() {
    let b1 = batch_of(&[0], &[5], &[2], &[(1, 1, 3, 1), (2, 2, 3, 4)]);
    let b2 = batch_of(&[5], &[9], &[3], &[(1, 1, 3, -1), (2, 2, 6, 1)]);
    let m = b1.merge(&b2);
    assert_eq!(enumerate(&m, &mut m.cursor()), vec![(2, 2, 3, 4), (2, 2, 6, 1)]);
    assert_eq!(m.desc.since(), &[2u64][..]);
    for q in 0..9 {
        assert_eq!(accumulate(&m, 2, 2, q), accumulate(&b1, 2, 2, q) + accumulate(&b2, 2, 2, q));
    }
}

#[test]
fn shared_handle_compaction() {
    let (h1, mut wrapper) = TraceRc::make_from(OrdTrace::new());
    assert_eq!(h1.advance_frontier(&wrapper), vec![0]);
    let h2 = h1.clone(&mut wrapper);
    assert_eq!(h2.advance_frontier(&wrapper), vec![0]);
    h1.advance_by(&mut wrapper, &[5]);
    assert_eq!(wrapper.trace.advance_frontier(), &[0u64][..]);
    h2.advance_by(&mut wrapper, &[3]);
    assert_eq!(wrapper.trace.advance_frontier(), &[3u64][..]);
    h2.drop(&mut wrapper);
    assert_eq!(wrapper.trace.advance_frontier(), &[5u64][..]);
    assert_eq!(h1.advance_frontier(&wrapper), vec![5]);
}

#[test]
fn dropping_every_handle_empties_the_frontiers() {
    let (h1, mut wrapper) = TraceRc::make_from(OrdTrace::new());
    h1.distinguish_since(&mut wrapper, &[4]);
    assert_eq!(wrapper.trace.distinguish_frontier(), &[4u64][..]);
    assert_eq!(h1.distinguish_frontier(&wrapper), vec![4]);
    let h2 = h1.clone(&mut wrapper);
    h2.distinguish_since(&mut wrapper, &[6]);
    assert_eq!(wrapper.trace.distinguish_frontier(), &[4u64][..]);
    h1.drop(&mut wrapper);
    assert_eq!(wrapper.trace.distinguish_frontier(), &[6u64][..]);
    h2.drop(&mut wrapper);
    assert!(wrapper.trace.distinguish_frontier().is_empty());
    assert!(wrapper.trace.advance_frontier().is_empty());
}

fn three_batch_trace() -> OrdTrace {
    let mut trace = OrdTrace::new();
    trace.insert(batch_of(&[0], &[2], &[0], &[(1, 1, 0, 1)]));
    trace.insert(batch_of(&[2], &[4], &[0], &[(1, 1, 3, 2)]));
    trace.insert(batch_of(&[4], &[7], &[0], &[(1, 1, 5, 4)]));
    trace
}

#[test]
fn clean_cut() {
    let mut trace = three_batch_trace();
    let (mut c, b) = trace.cursor_through(&[4]).expect("a clean cut at [4]");
    assert_eq!(enumerate(&b, &mut c), vec![(1, 1, 0, 1), (1, 1, 3, 2)]);
    assert!(trace.cursor_through(&[3]).is_none());
    let (mut c, b) = trace.cursor();
    assert_eq!(enumerate(&b, &mut c), vec![(1, 1, 0, 1), (1, 1, 3, 2), (1, 1, 5, 4)]);
    trace.advance_by(&[2]);
    assert_eq!(trace.advance_frontier(), &[2u64][..]);
    assert_eq!(trace.map_batches().len(), 3);
}

#[test]
fn batches_stay_contiguous() {
    let mut trace = three_batch_trace();
    trace.insert(batch_of(&[9], &[12], &[0], &[(2, 2, 10, 1)]));
    let batches = trace.map_batches();
    assert_eq!(batches.len(), 5);
    assert_eq!(batches[3].lower(), &[7u64][..]);
    assert_eq!(batches[3].upper(), &[9u64][..]);
    assert_eq!(batches[3].len(), 0);
    for i in 0..batches.len() - 1 {
        assert_eq!(batches[i].upper(), batches[i + 1].lower());
    }
}

#[test]
fn consolidate_example() {
    let mut v: Vec<(u64, i64)> = vec![(1, 2), (1, -2), (2, 1), (2, 1), (3, 0)];
    consolidate(&mut v, 0);
    assert_eq!(v, vec![(2, 2)]);
}

#[test]
fn consolidate_sorts_and_is_idempotent() {
    let mut v: Vec<(u64, i64)> = vec![(9, 1), (4, 3), (9, 2), (1, -1), (4, -3)];
    consolidate(&mut v, 0);
    assert_eq!(v, vec![(1, -1), (9, 3)]);
    let once = v.clone();
    consolidate(&mut v, 0);
    assert_eq!(v, once);
}

#[test]
fn consolidate_keeps_the_prefix() {
    let mut v: Vec<(u64, i64)> = vec![(5, 1), (5, 1), (3, 1), (3, 1)];
    consolidate(&mut v, 2);
    assert_eq!(v, vec![(5, 1), (5, 1), (3, 2)]);
    let mut empty: Vec<(u64, i64)> = Vec::new();
    consolidate(&mut empty, 0);
    assert!(empty.is_empty());
}

#[test]
fn time_advancement() {
    assert_eq!(advance_by(3, &[]), 3);
    assert_eq!(advance_by(3, &[2]), 3);
    assert_eq!(advance_by(1, &[2]), 2);
    assert_eq!(advance_by(1, &[2, 5]), 5);
}

#[test]
fn cursor_navigation() {
    let b = batch_of(&[0], &[9], &[0], &[(1, 1, 0, 1), (1, 1, 2, 1), (1, 3, 0, 1), (4, 2, 1, -1)]);
    let mut c = b.cursor();
    c.seek_key(&b, 2);
    assert_eq!(c.key(&b), 4);
    assert_eq!(c.val(&b), 2);
    c.rewind_keys(&b);
    assert_eq!(c.key(&b), 1);
    c.seek_val(&b, 2);
    assert_eq!(c.val(&b), 3);
    assert_eq!(c.map_times(&b), vec![(0, 1)]);
    c.rewind_vals(&b);
    assert_eq!(c.map_times(&b), vec![(0, 1), (2, 1)]);
    c.step_val(&b);
    c.step_val(&b);
    assert!(!c.val_valid(&b));
    c.step_key(&b);
    c.step_key(&b);
    assert!(!c.key_valid(&b));
}

#[test]
fn batcher_seals_in_order() {
    let mut batcher = OrdBatcher::new();
    let mut chunk = vec![((2, 1), 5, 1), ((1, 1), 0, 2), ((1, 1), 0, -1), ((3, 3), 1, 1)];
    batcher.push_batch(&mut chunk);
    assert!(chunk.is_empty());
    assert_eq!(batcher.frontier(), vec![0]);
    let first = batcher.seal(&[3]);
    assert_eq!(first.lower(), &[0u64][..]);
    assert_eq!(first.upper(), &[3u64][..]);
    assert_eq!(enumerate(&first, &mut first.cursor()), vec![(1, 1, 0, 1), (3, 3, 1, 1)]);
    assert_eq!(batcher.frontier(), vec![5]);
    let second = batcher.seal(&[8]);
    assert_eq!(second.lower(), &[3u64][..]);
    assert_eq!(enumerate(&second, &mut second.cursor()), vec![(2, 1, 5, 1)]);
    assert!(batcher.frontier().is_empty());
}

#[test]
fn builder_extend() {
    let mut builder = OrdBuilder::with_capacity(2);
    builder.extend(vec![(1, 1, 1, 1), (1, 2, 0, -2)]);
    let b = builder.done(&[0], &[4], &[0]);
    assert_eq!(enumerate(&b, &mut b.cursor()), vec![(1, 1, 1, 1), (1, 2, 0, -2)]);
}

#[test]
fn consolidate_by_positions() {
    let p = |key: u64, val: u64, time: u64| KeyValTime { key, val, time };
    let mut v = vec![(p(2, 1, 0), 1), (p(1, 5, 3), 2), (p(2, 1, 0), 1), (p(1, 5, 2), -4), (p(1, 5, 3), -2)];
    consolidate_by(&mut v, 0);
    assert_eq!(v, vec![(p(1, 5, 2), -4), (p(2, 1, 0), 2)]);
}

#[test]
fn handles_compact_the_shared_trace() {
    let mut trace = OrdTrace::new();
    trace.insert(batch_of(&[0], &[5], &[0], &[(1, 1, 0, 1), (1, 1, 2, 1), (1, 1, 4, -1)]));
    let (h1, mut wrapper) = TraceRc::make_from(trace);
    let h2 = h1.clone(&mut wrapper);
    h1.advance_by(&mut wrapper, &[5]);
    let (mut c, b) = h1.cursor_through(&wrapper, &[]).expect("every batch");
    assert_eq!(enumerate(&b, &mut c), vec![(1, 1, 0, 1), (1, 1, 2, 1), (1, 1, 4, -1)]);
    h2.advance_by(&mut wrapper, &[3]);
    let (mut c, b) = h2.cursor_through(&wrapper, &[5]).expect("a clean cut at [5]");
    assert_eq!(enumerate(&b, &mut c), vec![(1, 1, 3, 2), (1, 1, 4, -1)]);
    assert_eq!(h2.map_batches(&wrapper)[0].desc.since(), &[3u64][..]);
    h2.drop(&mut wrapper);
    let batches = h1.map_batches(&wrapper);
    assert_eq!(enumerate(&batches[0], &mut batches[0].cursor()), vec![(1, 1, 5, 1)]);
}

#[test]
fn advance_by_empty_frontier_keeps_times() {
    let b = s1_batch();
    let c = b.advance_ref(&[]);
    assert_eq!(c.desc.since(), &[] as &[u64]);
    assert_eq!(c.lower(), &[0u64][..]);
    assert_eq!(c.upper(), &[3u64][..]);
    assert_eq!(enumerate(&c, &mut c.cursor()), vec![(KEY_A, VAL_X, 0, 1), (KEY_A, VAL_X, 2, -1)]);
    let mut d = s1_batch();
    d.advance_mut(&[]);
    assert_eq!(d.len(), 2);
}

#[test]
fn accumulation_through_seek() {
    let mut trace = OrdTrace::new();
    trace.insert(s1_batch());
    let (mut c, b) = trace.cursor();
    c.seek_key(&b, KEY_A);
    c.seek_val(&b, VAL_X);
    let times = c.map_times(&b);
    let acc = |q: u64| -> i64 { times.iter().filter(|p| p.0 <= q).map(|p| p.1).sum() };
    assert_eq!(acc(0), 1);
    assert_eq!(acc(1), 1);
    assert_eq!(acc(2), 0);
    assert_eq!(acc(3), 0);
}

#[test]
fn consolidate_large_diffs_at_distinct_times() {
    let mut v: Vec<(u64, i64)> = vec![(2, i64::MAX), (1, i64::MAX)];
    consolidate(&mut v, 0);
    assert_eq!(v, vec![(1, i64::MAX), (2, i64::MAX)]);
}
