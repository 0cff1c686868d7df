//! Sets of indices as maximal runs of neighbours.

use vstd::prelude::*;

verus! {

/// Index `i` lies in the run `r`, given as its first index and its length.
pub open spec fn in_run(r: (u32, u32), i: int) -> bool {
    r.0 <= i < r.0 + r.1
}

/// Some run holds `i`.
pub open spec fn covered(runs: Seq<(u32, u32)>, i: int) -> bool {
    exists|k: int| 0 <= k < runs.len() && in_run(#[trigger] runs[k], i)
}

/// `runs` are the maximal runs of `set`, in ascending order: none is empty, no two
/// touch, and together they hold exactly the members of `set`.
pub open spec fn is_runs(set: Set<u32>, runs: Seq<(u32, u32)>) -> bool {
    &&& forall|k: int| 0 <= k < runs.len() ==> (#[trigger] runs[k]).1 >= 1
    &&& forall|k: int, l: int|
        0 <= k < l < runs.len() ==> (#[trigger] runs[k]).0 + runs[k].1 < (#[trigger] runs[l]).0
    &&& forall|i: u32| #[trigger] set.contains(i) <==> covered(runs, i as int)
    &&& forall|k: int| 0 <= k < runs.len() ==> (#[trigger] runs[k]).0 + runs[k].1 <= u32::MAX + 1
}

/// The maximal runs of `set`.
pub open spec fn runs_of(set: Set<u32>) -> Seq<(u32, u32)> {
    choose|runs: Seq<(u32, u32)>| is_runs(set, runs)
}

/// The first runs of two lists for one set agree.
proof fn lemma_first_run(set: Set<u32>, a: Seq<(u32, u32)>, b: Seq<(u32, u32)>)
    requires
        is_runs(set, a),
        is_runs(set, b),
        a.len() > 0,
    ensures
        b.len() > 0,
        a[0] == b[0],
{
    let s = a[0].0;
    assert(in_run(a[0], s as int));
    assert(set.contains(s));
    let k = choose|k: int| 0 <= k < b.len() && in_run(#[trigger] b[k], s as int);
    let t = b[0].0;
    assert(in_run(b[0], t as int));
    assert(set.contains(t));
    let l = choose|l: int| 0 <= l < a.len() && in_run(#[trigger] a[l], t as int);
    // The smallest member starts both lists.
    if s < t {
        if k > 0 {
            assert(b[0].0 + b[0].1 < b[k].0);
        }
    }
    if t < s {
        if l > 0 {
            assert(a[0].0 + a[0].1 < a[l].0);
        }
    }
    assert(s == t);
    // The first gap ends both runs.
    if a[0].1 < b[0].1 {
        let e = (a[0].0 + a[0].1) as u32;
        assert(in_run(b[0], e as int));
        assert(set.contains(e));
        let j = choose|j: int| 0 <= j < a.len() && in_run(#[trigger] a[j], e as int);
        if j > 0 {
            assert(a[0].0 + a[0].1 < a[j].0);
        }
    }
    if b[0].1 < a[0].1 {
        let e = (b[0].0 + b[0].1) as u32;
        assert(in_run(a[0], e as int));
        assert(set.contains(e));
        let j = choose|j: int| 0 <= j < b.len() && in_run(#[trigger] b[j], e as int);
        if j > 0 {
            assert(b[0].0 + b[0].1 < b[j].0);
        }
    }
}

/// What is left of a set once its first run is gone.
proof fn lemma_rest_runs(set: Set<u32>, a: Seq<(u32, u32)>)
    requires
        is_runs(set, a),
        a.len() > 0,
    ensures
        is_runs(set.filter(|i: u32| i >= a[0].0 + a[0].1), a.drop_first()),
{
    let end = a[0].0 + a[0].1;
    let rest = set.filter(|i: u32| i >= a[0].0 + a[0].1);
    let b = a.drop_first();
    assert forall|i: u32| #[trigger] rest.contains(i) <==> covered(b, i as int) by {
        if rest.contains(i) {
            let k = choose|k: int| 0 <= k < a.len() && in_run(#[trigger] a[k], i as int);
            assert(k > 0);
            assert(in_run(b[k - 1], i as int));
        }
        if covered(b, i as int) {
            let k = choose|k: int| 0 <= k < b.len() && in_run(#[trigger] b[k], i as int);
            assert(in_run(a[k + 1], i as int));
            assert(a[0].0 + a[0].1 < a[k + 1].0);
            assert(set.contains(i));
        }
    }
}

/// A set has one list of maximal runs.
pub proof fn law_runs_are_unique(set: Set<u32>, a: Seq<(u32, u32)>, b: Seq<(u32, u32)>)
    requires
        is_runs(set, a),
        is_runs(set, b),
    ensures
        a == b,
    decreases a.len(),
{
    if a.len() == 0 {
        if b.len() > 0 {
            lemma_first_run(set, b, a);
        }
        assert(a =~= b);
    } else {
        lemma_first_run(set, a, b);
        lemma_rest_runs(set, a);
        lemma_rest_runs(set, b);
        law_runs_are_unique(
            set.filter(|i: u32| i >= a[0].0 + a[0].1),
            a.drop_first(),
            b.drop_first(),
        );
        assert(a =~= seq![a[0]] + a.drop_first());
        assert(b =~= seq![b[0]] + b.drop_first());
    }
}

/// The list that meets [`is_runs`] is [`runs_of`].
pub proof fn lemma_runs_of(set: Set<u32>, runs: Seq<(u32, u32)>)
    requires
        is_runs(set, runs),
    ensures
        runs == runs_of(set),
{
    law_runs_are_unique(set, runs, runs_of(set));
}

/// Ascending without repetition.
pub open spec fn ascending(v: Seq<u32>) -> bool {
    forall|i: int, j: int| 0 <= i < j < v.len() ==> #[trigger] v[i] < #[trigger] v[j]
}

/// Puts `x` in its place unless it is there.
fn insert_ascending(v: &mut Vec<u32>, x: u32)
    requires
        ascending(old(v)@),
    ensures
        ascending(final(v)@),
        final(v)@.to_set() == old(v)@.to_set().insert(x),
        final(v).len() <= old(v).len() + 1,
{
    let ghost orig = v@;
    let mut i: usize = v.len();
    while i > 0 && v[i - 1] > x
        invariant
            v@ == orig,
            ascending(orig),
            i <= v.len(),
            forall|k: int| i <= k < v.len() ==> #[trigger] v[k] > x,
        decreases i,
    {
        i = i - 1;
    }
    if i > 0 && v[i - 1] == x {
        proof {
            assert(orig.to_set().contains(x)) by {
                assert(orig[i - 1] == x);
            }
            assert(orig.to_set().insert(x) =~= orig.to_set());
        }
        return ;
    }
    v.insert(i, x);
    proof {
        let now = v@;
        assert(now =~= orig.insert(i as int, x));
        assert forall|a: u32| now.to_set().contains(a) == orig.to_set().insert(x).contains(a) by {
            if now.contains(a) {
                let k = choose|k: int| 0 <= k < now.len() && now[k] == a;
                if k < i {
                    assert(orig[k] == a);
                } else if k > i {
                    assert(orig[k - 1] == a);
                }
            }
            if orig.contains(a) {
                let k = choose|k: int| 0 <= k < orig.len() && orig[k] == a;
                if k < i {
                    assert(now[k] == a);
                } else {
                    assert(now[k + 1] == a);
                }
            }
            assert(now[i as int] == x);
        }
        assert(now.to_set() =~= orig.to_set().insert(x));
    }
}

/// The maximal runs, first index and length, of a list of indices in any order.
pub fn consecutive_runs(indices: Vec<u32>) -> (runs: Vec<(u32, u32)>)
    requires
        indices.len() <= u32::MAX,
    ensures
        is_runs(indices@.to_set(), runs@),
        runs@ == runs_of(indices@.to_set()),
{
    let mut sorted: Vec<u32> = Vec::new();
    let mut k: usize = 0;
    proof {
        assert(indices@.take(0).to_set() =~= Set::<u32>::empty());
        assert(sorted@.to_set() =~= Set::<u32>::empty());
    }
    while k < indices.len()
        invariant
            k <= indices.len(),
            ascending(sorted@),
            sorted.len() <= k,
            sorted@.to_set() == indices@.take(k as int).to_set(),
        decreases indices.len() - k,
    {
        insert_ascending(&mut sorted, indices[k]);
        k = k + 1;
        proof {
            let a = indices@.take(k - 1);
            let b = indices@.take(k as int);
            assert(b =~= a.push(indices[k - 1]));
            assert forall|x: u32| b.to_set().contains(x) == a.to_set().insert(
                indices[k - 1],
            ).contains(x) by {
                if b.contains(x) {
                    let j = choose|j: int| 0 <= j < b.len() && b[j] == x;
                    if j < a.len() {
                        assert(a[j] == x);
                    }
                }
                if a.contains(x) {
                    let j = choose|j: int| 0 <= j < a.len() && a[j] == x;
                    assert(b[j] == x);
                }
                assert(b[k - 1] == indices[k - 1]);
            }
            assert(b.to_set() =~= a.to_set().insert(indices[k - 1]));
        }
    }
    proof {
        assert(indices@.take(k as int) =~= indices@);
    }
    let mut runs: Vec<(u32, u32)> = Vec::new();
    if sorted.len() == 0 {
        proof {
            assert forall|i: u32| #[trigger] indices@.to_set().contains(i) <==> covered(
                runs@,
                i as int,
            ) by {
                assert(!sorted@.contains(i));
            }
            lemma_runs_of(indices@.to_set(), runs@);
        }
        return runs;
    }
    let mut start: u32 = sorted[0];
    let mut prev: u32 = sorted[0];
    let mut i: usize = 1;
    // Index of the first member of the open run.
    let ghost mut first: int = 0;
    while i < sorted.len()
        invariant
            1 <= i <= sorted.len(),
            sorted.len() <= u32::MAX,
            ascending(sorted@),
            0 <= first < i,
            start == sorted[first],
            prev == sorted[i - 1],
            prev - start == i - 1 - first,
            forall|j: int| first <= j < i ==> #[trigger] sorted[j] == start + (j - first),
            forall|j: int| 0 <= j < runs.len() ==> (#[trigger] runs[j]).1 >= 1,
            forall|j: int, l: int|
                0 <= j < l < runs.len() ==> (#[trigger] runs[j]).0 + runs[j].1 < (
                #[trigger] runs[l]).0,
            forall|j: int| 0 <= j < runs.len() ==> (#[trigger] runs[j]).0 + runs[j].1 < start,
            forall|j: int| 0 <= j < first ==> covered(runs@, (#[trigger] sorted[j]) as int),
            forall|x: int|
                #[trigger] covered(runs@, x) ==> exists|j: int|
                    0 <= j < first && sorted[j] == x,
        decreases sorted.len() - i,
    {
        let x: u32 = sorted[i];
        proof {
            assert(sorted[i - 1] < sorted[i as int]);
        }
        if x == prev + 1 {
            prev = x;
        } else {
            let ghost before = runs@;
            runs.push((start, prev - start + 1));
            proof {
                let now = runs@;
                let run = (start, (prev - start + 1) as u32);
                assert forall|j: int| 0 <= j < i implies covered(
                    now,
                    (#[trigger] sorted[j]) as int,
                ) by {
                    if j < first {
                        let r = choose|r: int|
                            0 <= r < before.len() && in_run(
                                #[trigger] before[r],
                                sorted[j] as int,
                            );
                        assert(in_run(now[r], sorted[j] as int));
                    } else {
                        assert(in_run(now[now.len() - 1], sorted[j] as int));
                    }
                }
                assert forall|y: int| #[trigger] covered(now, y) implies exists|j: int|
                    0 <= j < i && sorted[j] == y by {
                    let r = choose|r: int| 0 <= r < now.len() && in_run(#[trigger] now[r], y);
                    if r < before.len() {
                        assert(in_run(before[r], y));
                        assert(covered(before, y));
                    } else {
                        assert(sorted[first + (y - start)] == y);
                    }
                }
                first = i as int;
            }
            start = x;
            prev = x;
        }
        i = i + 1;
    }
    let ghost before = runs@;
    runs.push((start, prev - start + 1));
    proof {
        let now = runs@;
        let set = indices@.to_set();
        assert forall|x: u32| #[trigger] set.contains(x) <==> covered(now, x as int) by {
            assert(set.contains(x) == sorted@.to_set().contains(x));
            if sorted@.contains(x) {
                let j = choose|j: int| 0 <= j < sorted.len() && sorted[j] == x;
                if j < first {
                    let r = choose|r: int|
                        0 <= r < before.len() && in_run(#[trigger] before[r], sorted[j] as int);
                    assert(in_run(now[r], x as int));
                } else {
                    assert(in_run(now[now.len() - 1], x as int));
                }
            }
            if covered(now, x as int) {
                let r = choose|r: int| 0 <= r < now.len() && in_run(#[trigger] now[r], x as int);
                if r < before.len() {
                    assert(in_run(before[r], x as int));
                    assert(covered(before, x as int));
                } else {
                    assert(sorted[first + (x - start)] == x);
                }
            }
        }
        lemma_runs_of(set, now);
    }
    runs
}

/// The members of a set below `n` have maximal runs.
proof fn lemma_runs_below(set: Set<u32>, n: int) -> (runs: Seq<(u32, u32)>)
    requires
        0 <= n <= u32::MAX,
    ensures
        is_runs(set.filter(|i: u32| i < n), runs),
        forall|k: int| 0 <= k < runs.len() ==> (#[trigger] runs[k]).0 + runs[k].1 <= n,
    decreases n,
{
    let part = set.filter(|i: u32| i < n);
    if n == 0 {
        let none = Seq::<(u32, u32)>::empty();
        assert forall|i: u32| #[trigger] part.contains(i) <==> covered(none, i as int) by {}
        none
    } else {
        let r = lemma_runs_below(set, n - 1);
        let less = set.filter(|i: u32| i < n - 1);
        let x = (n - 1) as u32;
        if !set.contains(x) {
            assert(part =~= less);
            r
        } else if r.len() > 0 && r.last().0 + r.last().1 == x {
            let e = r.len() - 1;
            let out = r.update(e, (r[e].0, (r[e].1 + 1) as u32));
            assert forall|i: u32| #[trigger] part.contains(i) <==> covered(out, i as int) by {
                assert(less.contains(i) <==> covered(r, i as int));
                if part.contains(i) {
                    if i == x {
                        assert(in_run(out[e], i as int));
                    } else {
                        let k = choose|k: int| 0 <= k < r.len() && in_run(#[trigger] r[k], i as int);
                        assert(in_run(out[k], i as int));
                    }
                }
                if covered(out, i as int) {
                    let k = choose|k: int| 0 <= k < out.len() && in_run(#[trigger] out[k], i as int);
                    if i != x {
                        assert(in_run(r[k], i as int));
                    }
                }
            }
            out
        } else {
            let out = r.push((x, 1u32));
            assert forall|i: u32| #[trigger] part.contains(i) <==> covered(out, i as int) by {
                assert(less.contains(i) <==> covered(r, i as int));
                if part.contains(i) {
                    if i == x {
                        assert(in_run(out[r.len() as int], i as int));
                    } else {
                        let k = choose|k: int| 0 <= k < r.len() && in_run(#[trigger] r[k], i as int);
                        assert(in_run(out[k], i as int));
                    }
                }
                if covered(out, i as int) {
                    let k = choose|k: int| 0 <= k < out.len() && in_run(#[trigger] out[k], i as int);
                    if k < r.len() {
                        assert(in_run(r[k], i as int));
                    }
                }
            }
            assert forall|k: int| 0 <= k < r.len() implies (#[trigger] r[k]).0 + r[k].1 < x by {
                if k < r.len() - 1 {
                    assert(r[k].0 + r[k].1 < r[r.len() - 1].0);
                }
            }
            out
        }
    }
}

/// Every set of indices below the largest one has maximal runs.
pub proof fn lemma_has_runs(set: Set<u32>)
    requires
        !set.contains(u32::MAX),
    ensures
        is_runs(set, runs_of(set)),
{
    let runs = lemma_runs_below(set, u32::MAX as int);
    assert(set.filter(|i: u32| i < u32::MAX as int) =~= set);
    assert(is_runs(set, runs));
}

/// An index of a set lies in one of its runs and in no other.
pub proof fn lemma_run_holding(set: Set<u32>, i: u32) -> (k: int)
    requires
        set.contains(i),
        !set.contains(u32::MAX),
    ensures
        0 <= k < runs_of(set).len(),
        in_run(runs_of(set)[k], i as int),
        forall|l: int|
            0 <= l < runs_of(set).len() && l != k ==> !in_run(#[trigger] runs_of(set)[l], i as int),
{
    lemma_has_runs(set);
    let runs = runs_of(set);
    assert(covered(runs, i as int));
    let k = choose|k: int| 0 <= k < runs.len() && in_run(#[trigger] runs[k], i as int);
    assert forall|l: int| 0 <= l < runs.len() && l != k implies !in_run(
        #[trigger] runs[l],
        i as int,
    ) by {
        if l < k {
            assert(runs[l].0 + runs[l].1 < runs[k].0);
        } else {
            assert(runs[k].0 + runs[k].1 < runs[l].0);
        }
    }
    k
}

/// No run of a set holds an index that is not in the set.
pub proof fn lemma_no_run_holding(set: Set<u32>, i: u32)
    requires
        !set.contains(i),
        !set.contains(u32::MAX),
    ensures
        forall|l: int|
            0 <= l < runs_of(set).len() ==> !in_run(#[trigger] runs_of(set)[l], i as int),
{
    lemma_has_runs(set);
    let runs = runs_of(set);
    assert(!covered(runs, i as int));
}

} // verus!
