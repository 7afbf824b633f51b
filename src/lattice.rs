use vstd::prelude::*;

verus! {

/// Some element of the frontier `f` is less or equal to `t`.
pub open spec fn in_advance_of(f: Seq<u64>, t: u64) -> bool {
    exists|i: int| 0 <= i < f.len() && #[trigger] f[i] <= t
}

/// No element of `f` is less or equal to another.
pub open spec fn is_antichain(f: Seq<u64>) -> bool {
    forall|i: int, j: int| 0 <= i < f.len() && 0 <= j < f.len() && i != j ==> !(#[trigger] f[i] <= #[trigger] f[j])
}

/// The join (maximum) of `t` with every element of `f`.
pub open spec fn join_all(f: Seq<u64>, t: u64) -> u64
    decreases f.len(),
{
    if f.len() == 0 {
        t
    } else {
        let a = join_all(f.drop_last(), t);
        if a >= f.last() {
            a
        } else {
            f.last()
        }
    }
}

/// `t` advanced by the frontier `f`: unchanged when `f` is empty or `t` is in
/// advance of `f`, else the join of `t` with every element of `f`.
pub open spec fn advanced(t: u64, f: Seq<u64>) -> u64 {
    if f.len() == 0 || in_advance_of(f, t) {
        t
    } else {
        join_all(f, t)
    }
}

/// Advances `time` by `frontier`: the least time in advance of the frontier
/// that compares the same as `time` to every time in advance of it.
pub fn advance_by(time: u64, frontier: &[u64]) -> (r: u64)
    ensures
        r == advanced(time, frontier@),
{
    let mut i: usize = 0;
    while i < frontier.len()
        invariant
            i <= frontier.len(),
            forall|j: int| 0 <= j < i ==> !(#[trigger] frontier@[j] <= time),
        decreases frontier.len() - i,
    {
        if frontier[i] <= time {
            return time;
        }
        i += 1;
    }
    let mut acc: u64 = time;
    let mut k: usize = 0;
    while k < frontier.len()
        invariant
            k <= frontier.len(),
            acc == join_all(frontier@.take(k as int), time),
        decreases frontier.len() - k,
    {
        assert(frontier@.take(k + 1).drop_last() =~= frontier@.take(k as int));
        if acc < frontier[k] {
            acc = frontier[k];
        }
        k += 1;
    }
    assert(frontier@.take(k as int) =~= frontier@);
    acc
}

/// Advancing by an antichain `f` keeps every comparison with a time `q` in
/// advance of `f`: `t <= q` exactly when `advanced(t, f) <= q`.
pub proof fn lemma_advance_keeps_order(t: u64, f: Seq<u64>, q: u64)
    requires
        is_antichain(f),
        in_advance_of(f, q),
    ensures
        (t <= q) == (advanced(t, f) <= q),
{
    if f.len() >= 2 {
        assert(!(f[0] <= f[1]));
        assert(!(f[1] <= f[0]));
    }
    assert(f.drop_last().len() == 0 ==> join_all(f.drop_last(), t) == t);
    if !in_advance_of(f, t) {
        assert(!(f[0] <= t));
    }
}

} // verus!
