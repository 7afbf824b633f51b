use vstd::prelude::*;
use crate::order::Sortable;

verus! {

/// Sum of the diffs in `s` whose first component satisfies `p`.
pub open spec fn mass<T>(s: Seq<(T, i64)>, p: spec_fn(T) -> bool) -> int
    decreases s.len(),
{
    if s.len() == 0 {
        0
    } else {
        mass(s.drop_last(), p) + if p(s.last().0) {
            s.last().1 as int
        } else {
            0
        }
    }
}

/// Net weight of `t` in `s`: the sum of the diffs paired with `t`.
pub open spec fn weight<T>(s: Seq<(T, i64)>, t: T) -> int {
    mass(s, |x: T| x == t)
}

/// Sum of the absolute values of all diffs in `s`.
pub open spec fn abs_total<T>(s: Seq<(T, i64)>) -> int
    decreases s.len(),
{
    if s.len() == 0 {
        0
    } else {
        abs_total(s.drop_last()) + if s.last().1 < 0 {
            -(s.last().1 as int)
        } else {
            s.last().1 as int
        }
    }
}

/// Every running sum of the diffs at one first component, taken in order,
/// fits in an `i64`.
pub open spec fn sums_fit<T>(s: Seq<(T, i64)>) -> bool {
    forall|k: int, t: T| 0 <= k <= s.len() ==> i64::MIN <= #[trigger] weight(s.take(k), t) <= i64::MAX
}

/// First components strictly increase.
pub open spec fn sorted_strict<T: Sortable>(s: Seq<(T, i64)>) -> bool {
    forall|i: int, j: int| 0 <= i < j < s.len() ==> (#[trigger] s[i]).0.precedes((#[trigger] s[j]).0)
}

/// No diff is zero.
pub open spec fn all_nonzero<T>(s: Seq<(T, i64)>) -> bool {
    forall|i: int| 0 <= i < s.len() ==> (#[trigger] s[i]).1 != 0
}

/// `output` is the consolidated form of `input`: sorted, without repeated
/// first components and zero diffs, with the same net weight everywhere.
pub open spec fn is_consolidation<T: Sortable>(input: Seq<(T, i64)>, output: Seq<(T, i64)>) -> bool {
    &&& sorted_strict(output)
    &&& all_nonzero(output)
    &&& forall|p: spec_fn(T) -> bool| #[trigger] mass(output, p) == mass(input, p)
}

pub proof fn lemma_mass_concat<T>(a: Seq<(T, i64)>, b: Seq<(T, i64)>, p: spec_fn(T) -> bool)
    ensures
        mass(a + b, p) == mass(a, p) + mass(b, p),
    decreases b.len(),
{
    if b.len() == 0 {
        assert(a + b =~= a);
    } else {
        assert((a + b).drop_last() =~= a + b.drop_last());
        lemma_mass_concat(a, b.drop_last(), p);
    }
}

pub proof fn lemma_abs_total_concat<T>(a: Seq<(T, i64)>, b: Seq<(T, i64)>)
    ensures
        abs_total(a + b) == abs_total(a) + abs_total(b),
    decreases b.len(),
{
    if b.len() == 0 {
        assert(a + b =~= a);
    } else {
        assert((a + b).drop_last() =~= a + b.drop_last());
        lemma_abs_total_concat(a, b.drop_last());
    }
}

/// When the absolute diffs sum to at most `i64::MAX`, every running sum fits.
pub proof fn lemma_abs_total_sums_fit<T>(s: Seq<(T, i64)>)
    requires
        abs_total(s) <= i64::MAX,
    ensures
        sums_fit(s),
{
    assert forall|k: int, t: T| 0 <= k <= s.len() implies i64::MIN <= #[trigger] weight(s.take(k), t) <= i64::MAX by {
        lemma_abs_total_prefix(s, k);
        lemma_mass_bounded(s.take(k), |x: T| x == t);
    }
}

pub proof fn lemma_abs_total_nonneg<T>(s: Seq<(T, i64)>)
    ensures
        abs_total(s) >= 0,
    decreases s.len(),
{
    if s.len() > 0 {
        lemma_abs_total_nonneg(s.drop_last());
    }
}

pub proof fn lemma_mass_bounded<T>(s: Seq<(T, i64)>, p: spec_fn(T) -> bool)
    ensures
        -abs_total(s) <= mass(s, p) <= abs_total(s),
        abs_total(s) >= 0,
    decreases s.len(),
{
    if s.len() > 0 {
        lemma_mass_bounded(s.drop_last(), p);
    }
}

pub proof fn lemma_abs_total_prefix<T>(s: Seq<(T, i64)>, k: int)
    requires
        0 <= k <= s.len(),
    ensures
        abs_total(s.take(k)) <= abs_total(s),
    decreases s.len() - k,
{
    if k < s.len() {
        lemma_abs_total_prefix(s, k + 1);
        assert(s.take(k + 1).drop_last() =~= s.take(k));
        lemma_mass_bounded(s.take(k), |x: T| true);
    } else {
        assert(s.take(k) =~= s);
    }
}

pub proof fn lemma_mass_absent<T>(s: Seq<(T, i64)>, p: spec_fn(T) -> bool)
    requires
        forall|i: int| 0 <= i < s.len() ==> !p((#[trigger] s[i]).0),
    ensures
        mass(s, p) == 0,
    decreases s.len(),
{
    if s.len() > 0 {
        lemma_mass_absent(s.drop_last(), p);
    }
}

/// In a strictly sorted sequence, the weight of a present element is its own diff.
pub proof fn lemma_mass_sorted<T: Sortable>(s: Seq<(T, i64)>, i: int)
    requires
        sorted_strict(s),
        0 <= i < s.len(),
    ensures
        weight(s, s[i].0) == s[i].1,
    decreases s.len(),
{
    let t = s[i].0;
    let d = s.drop_last();
    if i == s.len() - 1 {
        assert forall|j: int| 0 <= j < d.len() implies (#[trigger] d[j]).0 != t by {
            assert(s[j].0.precedes(s[i].0));
            T::lemma_strict_total(t, t, t);
        }
        lemma_mass_absent(d, |x: T| x == t);
    } else {
        assert(s[i].0.precedes(s[s.len() - 1].0));
        T::lemma_strict_total(t, t, t);
        lemma_mass_sorted(d, i);
    }
}

/// A sorted sequence without zero diffs is fixed by its weights.
pub proof fn lemma_consolidated_unique<T: Sortable>(a: Seq<(T, i64)>, b: Seq<(T, i64)>)
    requires
        sorted_strict(a),
        all_nonzero(a),
        sorted_strict(b),
        all_nonzero(b),
        forall|p: spec_fn(T) -> bool| #[trigger] mass(a, p) == mass(b, p),
    ensures
        a == b,
    decreases a.len() + b.len(),
{
    if a.len() == 0 && b.len() == 0 {
        assert(a =~= b);
    } else if a.len() == 0 {
        lemma_mass_sorted(b, b.len() - 1);
        assert(mass(a, |x: T| x == b.last().0) == 0);
    } else if b.len() == 0 {
        lemma_mass_sorted(a, a.len() - 1);
        assert(mass(b, |x: T| x == a.last().0) == 0);
    } else {
        let x = a.last().0;
        let y = b.last().0;
        T::lemma_strict_total(x, y, x);
        lemma_mass_sorted(a, a.len() - 1);
        lemma_mass_sorted(b, b.len() - 1);
        if x.precedes(y) {
            assert forall|i: int| 0 <= i < a.len() implies (#[trigger] a[i]).0 != y by {
                if i < a.len() - 1 {
                    assert(a[i].0.precedes(x));
                    T::lemma_strict_total(a[i].0, x, y);
                }
                T::lemma_strict_total(y, y, y);
            }
            lemma_mass_absent(a, |x: T| x == y);
            assert(mass(a, |x: T| x == y) == mass(b, |x: T| x == y));
        } else if y.precedes(x) {
            assert forall|i: int| 0 <= i < b.len() implies (#[trigger] b[i]).0 != x by {
                if i < b.len() - 1 {
                    assert(b[i].0.precedes(y));
                    T::lemma_strict_total(b[i].0, y, x);
                }
                T::lemma_strict_total(x, x, x);
            }
            lemma_mass_absent(b, |y: T| y == x);
            assert(mass(a, |y: T| y == x) == mass(b, |y: T| y == x));
        } else {
            let da = a.drop_last();
            let db = b.drop_last();
            assert forall|p: spec_fn(T) -> bool| #[trigger] mass(da, p) == mass(db, p) by {
                assert(mass(a, p) == mass(b, p));
            }
            lemma_consolidated_unique(da, db);
            assert(a =~= da.push(a.last()));
            assert(b =~= db.push(b.last()));
        }
    }
}

/// The consolidated form of `input`, returned as a new vector.
pub fn consolidated<T: Sortable>(input: &Vec<(T, i64)>, off: usize) -> (out: Vec<(T, i64)>)
    requires
        off <= input.len(),
        sums_fit(input@.subrange(off as int, input.len() as int)),
    ensures
        is_consolidation(input@.subrange(off as int, input.len() as int), out@),
        abs_total(out@) <= abs_total(input@.subrange(off as int, input.len() as int)),
{
    let ghost whole = input@.subrange(off as int, input.len() as int);
    let mut acc: Vec<(T, i64)> = Vec::new();
    let mut i: usize = off;
    while i < input.len()
        invariant
            off <= i <= input.len(),
            whole == input@.subrange(off as int, input.len() as int),
            sums_fit(whole),
            sorted_strict(acc@),
            abs_total(acc@) <= abs_total(input@.subrange(off as int, i as int)),
            forall|p: spec_fn(T) -> bool| #[trigger] mass(acc@, p) == mass(input@.subrange(off as int, i as int), p),
        decreases input.len() - i,
    {
        let ghost pre = input@.subrange(off as int, i as int);
        let ghost next = input@.subrange(off as int, i + 1);
        let ghost old_acc = acc@;
        assert(next.drop_last() =~= pre);
        assert(whole.take(i + 1 - off) =~= next);
        let t = input[i].0;
        let r = input[i].1;
        assert(next.last() == (t, r));
        assert(abs_total(next) == abs_total(pre) + if r < 0 { -(r as int) } else { r as int });
        let mut j: usize = 0;
        while j < acc.len() && acc[j].0.exec_precedes(&t)
            invariant
                j <= acc.len(),
                acc@ == old_acc,
                forall|k: int| 0 <= k < j ==> (#[trigger] acc@[k]).0.precedes(t),
            decreases acc.len() - j,
        {
            j += 1;
        }
        if j < acc.len() && acc[j].0.exec_same(&t) {
            proof {
                lemma_mass_sorted(acc@, j as int);
                assert(i64::MIN <= weight(whole.take(i + 1 - off), t) <= i64::MAX);
                assert(mass(acc@, |x: T| x == t) == mass(pre, |x: T| x == t));
            }
            let nw = acc[j].1 + r;
            acc.set(j, (t, nw));
            proof {
                let a = old_acc;
                assert(a =~= a.take(j as int) + seq![a[j as int]] + a.skip(j + 1));
                assert(acc@ =~= a.take(j as int) + seq![(t, nw)] + a.skip(j + 1));
                lemma_abs_total_concat(a.take(j as int) + seq![a[j as int]], a.skip(j + 1));
                lemma_abs_total_concat(a.take(j as int), seq![a[j as int]]);
                lemma_abs_total_concat(a.take(j as int) + seq![(t, nw)], a.skip(j + 1));
                lemma_abs_total_concat(a.take(j as int), seq![(t, nw)]);
                assert(seq![a[j as int]].drop_last() =~= Seq::<(T, i64)>::empty());
                assert(seq![(t, nw)].drop_last() =~= Seq::<(T, i64)>::empty());
                assert(a[j as int].1 == acc@[j as int].1 - r);
                assert(abs_total(Seq::<(T, i64)>::empty()) == 0);
                assert(seq![(t, nw)].last() == (t, nw));
                assert(seq![a[j as int]].last() == a[j as int]);
                assert(abs_total(seq![(t, nw)]) == if nw < 0 { -(nw as int) } else { nw as int });
                assert(abs_total(seq![a[j as int]]) == if a[j as int].1 < 0 { -(a[j as int].1 as int) } else { a[j as int].1 as int });
                assert(abs_total(acc@) <= abs_total(next));
                assert forall|u: spec_fn(T) -> bool| #[trigger] mass(acc@, u) == mass(next, u) by {
                    lemma_mass_concat(a.take(j as int) + seq![a[j as int]], a.skip(j + 1), u);
                    lemma_mass_concat(a.take(j as int), seq![a[j as int]], u);
                    lemma_mass_concat(a.take(j as int) + seq![(t, nw)], a.skip(j + 1), u);
                    lemma_mass_concat(a.take(j as int), seq![(t, nw)], u);
                    assert(seq![a[j as int]].drop_last() =~= Seq::<(T, i64)>::empty());
                    assert(seq![(t, nw)].drop_last() =~= Seq::<(T, i64)>::empty());
                }
            }
        } else {
            proof {
                if j < acc.len() {
                    T::lemma_strict_total(acc@[j as int].0, t, t);
                }
            }
            acc.insert(j, (t, r));
            proof {
                let a = old_acc;
                assert(a =~= a.take(j as int) + a.skip(j as int));
                assert(acc@ =~= a.take(j as int) + seq![(t, r)] + a.skip(j as int));
                lemma_abs_total_concat(a.take(j as int), a.skip(j as int));
                lemma_abs_total_concat(a.take(j as int) + seq![(t, r)], a.skip(j as int));
                lemma_abs_total_concat(a.take(j as int), seq![(t, r)]);
                assert(seq![(t, r)].drop_last() =~= Seq::<(T, i64)>::empty());
                assert(abs_total(Seq::<(T, i64)>::empty()) == 0);
                assert(seq![(t, r)].last() == (t, r));
                assert(abs_total(acc@) <= abs_total(next));
                assert forall|u: spec_fn(T) -> bool| #[trigger] mass(acc@, u) == mass(next, u) by {
                    lemma_mass_concat(a.take(j as int), a.skip(j as int), u);
                    lemma_mass_concat(a.take(j as int) + seq![(t, r)], a.skip(j as int), u);
                    lemma_mass_concat(a.take(j as int), seq![(t, r)], u);
                    assert(seq![(t, r)].drop_last() =~= Seq::<(T, i64)>::empty());
                    assert(mass(Seq::<(T, i64)>::empty(), u) == 0);
                    assert(next.last() == (t, r));
                    assert(mass(next, u) == mass(pre, u) + mass(seq![(t, r)], u));
                }
                assert forall|x: int, y: int| 0 <= x < y < acc@.len() implies (#[trigger] acc@[x]).0.precedes(
                    (#[trigger] acc@[y]).0,
                ) by {
                    if y < j {
                    } else if y == j {
                    } else if x < j {
                        T::lemma_strict_total(acc@[x].0, t, acc@[y].0);
                    } else if x == j {
                        if y > j + 1 {
                            T::lemma_strict_total(t, a[j as int].0, acc@[y].0);
                        }
                    } else {
                    }
                }
            }
        }
        i += 1;
    }
    assert(input@.subrange(off as int, i as int) =~= whole);
    let mut out: Vec<(T, i64)> = Vec::new();
    let mut k: usize = 0;
    while k < acc.len()
        invariant
            k <= acc.len(),
            sorted_strict(acc@),
            sorted_strict(out@),
            all_nonzero(out@),
            abs_total(acc@) <= abs_total(input@.subrange(off as int, input.len() as int)),
            abs_total(out@) <= abs_total(acc@.take(k as int)),
            out@.len() > 0 ==> k > 0 && (out@.last().0 == acc@[k - 1].0 || out@.last().0.precedes(
                acc@[k - 1].0,
            )),
            forall|p: spec_fn(T) -> bool| #[trigger] mass(out@, p) == mass(acc@.take(k as int), p),
        decreases acc.len() - k,
    {
        let ghost prev = out@;
        assert(acc@.take(k + 1).drop_last() =~= acc@.take(k as int));
        if acc[k].1 != 0 {
            proof {
                if out@.len() > 0 {
                    assert(acc@[k - 1].0.precedes(acc@[k as int].0));
                    T::lemma_strict_total(out@.last().0, acc@[k - 1].0, acc@[k as int].0);
                }
            }
            out.push(acc[k]);
            proof {
                assert(out@.drop_last() =~= prev);
                assert(out@.last() == acc@[k as int]);
                assert(acc@.take(k + 1).last() == acc@[k as int]);
                assert forall|u: spec_fn(T) -> bool| #[trigger] mass(out@, u) == mass(acc@.take(k + 1), u) by {
                    assert(mass(prev, u) == mass(acc@.take(k as int), u));
                }
                assert forall|x: int, y: int| 0 <= x < y < out@.len() implies (#[trigger] out@[x]).0.precedes(
                    (#[trigger] out@[y]).0,
                ) by {
                    if y == out@.len() - 1 && x < y - 1 {
                        T::lemma_strict_total(out@[x].0, prev.last().0, acc@[k as int].0);
                    }
                }
            }
        } else {
            proof {
                assert(acc@.take(k + 1).last() == acc@[k as int]);
                assert forall|u: spec_fn(T) -> bool| #[trigger] mass(out@, u) == mass(acc@.take(k + 1), u) by {
                    assert(mass(prev, u) == mass(acc@.take(k as int), u));
                }
                if out@.len() > 0 {
                    assert(acc@[k - 1].0.precedes(acc@[k as int].0));
                    T::lemma_strict_total(out@.last().0, acc@[k - 1].0, acc@[k as int].0);
                }
            }
        }
        k += 1;
    }
    assert(acc@.take(k as int) =~= acc@);
    out
}

/// In a consolidation, each first component appears once, with the net
/// weight that the input gives it; one absent from the output has weight zero
/// in the input.
pub proof fn lemma_consolidation_weights<T: Sortable>(input: Seq<(T, i64)>, output: Seq<(T, i64)>, t: T)
    requires
        is_consolidation(input, output),
    ensures
        forall|i: int| 0 <= i < output.len() && (#[trigger] output[i]).0 == t ==> weight(input, t) == output[i].1,
        (forall|i: int| 0 <= i < output.len() ==> (#[trigger] output[i]).0 != t) ==> weight(input, t) == 0,
{
    assert(mass(output, |x: T| x == t) == mass(input, |x: T| x == t));
    assert forall|i: int| 0 <= i < output.len() && (#[trigger] output[i]).0 == t implies weight(input, t) == output[i].1 by {
        lemma_mass_sorted(output, i);
    }
    if forall|i: int| 0 <= i < output.len() ==> (#[trigger] output[i]).0 != t {
        lemma_mass_absent(output, |x: T| x == t);
    }
}

/// A strictly sorted sequence has at most one diff per first component, so
/// its running sums fit: it can be consolidated again.
pub proof fn lemma_sorted_sums_fit<T: Sortable>(s: Seq<(T, i64)>)
    requires
        sorted_strict(s),
    ensures
        sums_fit(s),
{
    assert forall|k: int, t: T| 0 <= k <= s.len() implies i64::MIN <= #[trigger] weight(s.take(k), t) <= i64::MAX by {
        let p = s.take(k);
        assert(sorted_strict(p)) by {
            assert forall|i: int, j: int| 0 <= i < j < p.len() implies (#[trigger] p[i]).0.precedes((#[trigger] p[j]).0) by {
                assert(s[i] == p[i] && s[j] == p[j]);
            }
        }
        if exists|i: int| 0 <= i < p.len() && (#[trigger] p[i]).0 == t {
            let i = choose|i: int| 0 <= i < p.len() && (#[trigger] p[i]).0 == t;
            lemma_mass_sorted(p, i);
        } else {
            lemma_mass_absent(p, |x: T| x == t);
        }
    }
}

/// Consolidation is idempotent: consolidating a consolidated sequence gives it back.
pub proof fn lemma_consolidate_idempotent<T: Sortable>(
    v: Seq<(T, i64)>,
    once: Seq<(T, i64)>,
    twice: Seq<(T, i64)>,
)
    requires
        is_consolidation(v, once),
        is_consolidation(once, twice),
    ensures
        twice == once,
{
    assert forall|p: spec_fn(T) -> bool| #[trigger] mass(twice, p) == mass(once, p) by {
        assert(mass(twice, p) == mass(once, p));
    }
    lemma_consolidated_unique(twice, once);
}

/// Consolidates `vec[off..]` in place under the order of `T`: sorts it by
/// first component, sums the diffs of equal first components and drops zero
/// diffs. `vec[..off]` is kept.
pub fn consolidate_by<T: Sortable>(vec: &mut Vec<(T, i64)>, off: usize)
    requires
        off <= old(vec).len(),
        sums_fit(old(vec)@.subrange(off as int, old(vec).len() as int)),
    ensures
        off <= final(vec).len(),
        final(vec)@.subrange(0, off as int) == old(vec)@.subrange(0, off as int),
        is_consolidation(
            old(vec)@.subrange(off as int, old(vec).len() as int),
            final(vec)@.subrange(off as int, final(vec).len() as int),
        ),
        sums_fit(final(vec)@.subrange(off as int, final(vec).len() as int)),
{
    let mut tail = consolidated(vec, off);
    let ghost t0 = tail@;
    vec.truncate(off);
    let ghost head = vec@;
    vec.append(&mut tail);
    assert(vec@.subrange(0, off as int) =~= head);
    assert(vec@.subrange(off as int, vec.len() as int) =~= t0);
    proof {
        lemma_sorted_sums_fit(t0);
    }
}

/// Consolidates `vec[off..]` in place: sorts it by time, sums the diffs of
/// equal times and drops zero diffs. `vec[..off]` is kept.
pub fn consolidate(vec: &mut Vec<(u64, i64)>, off: usize)
    requires
        off <= old(vec).len(),
        sums_fit(old(vec)@.subrange(off as int, old(vec).len() as int)),
    ensures
        off <= final(vec).len(),
        final(vec)@.subrange(0, off as int) == old(vec)@.subrange(0, off as int),
        is_consolidation(
            old(vec)@.subrange(off as int, old(vec).len() as int),
            final(vec)@.subrange(off as int, final(vec).len() as int),
        ),
        sums_fit(final(vec)@.subrange(off as int, final(vec).len() as int)),
{
    consolidate_by(vec, off);
}

} // verus!
