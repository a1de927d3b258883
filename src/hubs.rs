//! Extraction of the top-level leaves of a clustering dendrogram.
//!
//! A dendrogram over `n` leaves is a sequence of merge steps, each naming the
//! two clusters it joins. An id below `n` is a leaf; an id `n + s` is the
//! cluster formed by step `s`. The walk goes from the last step (the root)
//! back to the first and collects the leaf ids that each step names, first
//! the step's first cluster, then its second.
//!
//! The leaves met first are those that stay singletons until the latest
//! merges. Where dissimilarity falls as the number of flights grows, these
//! tend to be the least connected airports, not the busiest: the rule picks
//! late holdouts, and is kept as it is.

use vstd::prelude::*;

verus! {

/// Leaf ids among the two clusters of the step `s`, first one first.
pub open spec fn step_leaves(s: (usize, usize), n: int) -> Seq<usize> {
    (if (s.0 as int) < n {
        seq![s.0]
    } else {
        Seq::empty()
    }) + (if (s.1 as int) < n {
        seq![s.1]
    } else {
        Seq::empty()
    })
}

/// Leaf ids collected from the last `m` steps, walking from the root down.
pub open spec fn top_leaves(steps: Seq<(usize, usize)>, n: int, m: int) -> Seq<usize>
    decreases m,
{
    if m <= 0 {
        Seq::empty()
    } else {
        top_leaves(steps, n, m - 1) + step_leaves(steps[steps.len() - m], n)
    }
}

/// Number of steps that the walk inspects when it starts after `m` steps:
/// it stops at the first count of steps whose leaves number at least `k`,
/// or when no step is left.
pub open spec fn steps_taken(steps: Seq<(usize, usize)>, n: int, k: int, m: int) -> int
    decreases steps.len() - m,
{
    if m >= steps.len() || top_leaves(steps, n, m).len() >= k {
        m
    } else {
        steps_taken(steps, n, k, m + 1)
    }
}

/// The leaf ids that the walk collects: whole steps are taken from the root
/// down until at least `k` leaf ids have been collected.
pub open spec fn hub_walk(steps: Seq<(usize, usize)>, n: int, k: int) -> Seq<usize> {
    top_leaves(steps, n, steps_taken(steps, n, k, 0))
}

/// The steps of a dendrogram over `n` leaves name each leaf once: their leaf
/// ids are `n` in number and pairwise distinct.
pub open spec fn names_each_leaf_once(steps: Seq<(usize, usize)>, n: int) -> bool {
    let all = top_leaves(steps, n, steps.len() as int);
    all.no_duplicates() && all.len() == n
}

/// Walks the dendrogram `steps` over `singles` leaves from the root down and
/// returns the leaf ids it meets, stopping after the step that brings their
/// number to `wanted` or more: so `wanted` or `wanted + 1` ids where each
/// leaf occurs once. `None` when all steps together name fewer than
/// `wanted` leaves.
pub fn extract_hubs(steps: &[(usize, usize)], singles: usize, wanted: usize) -> (r: Option<
    Vec<usize>,
>)
    ensures
        r.is_some() <==> top_leaves(steps@, singles as int, steps@.len() as int).len()
            >= wanted,
        r.is_some() ==> r.unwrap()@ == hub_walk(steps@, singles as int, wanted as int),
{
    let ghost n = singles as int;
    let ghost k = wanted as int;
    let mut out: Vec<usize> = Vec::new();
    let mut i: usize = 0;
    while i < steps.len() && out.len() < wanted
        invariant
            n == singles as int,
            k == wanted as int,
            i <= steps@.len(),
            out@ == top_leaves(steps@, n, i as int),
            forall|m: int| 0 <= m < i ==> #[trigger] top_leaves(steps@, n, m).len() < k,
        decreases steps@.len() - i,
    {
        let step = steps[steps.len() - 1 - i];
        let ghost before = out@;
        assert(top_leaves(steps@, n, i as int).len() < k);
        if step.0 < singles {
            out.push(step.0);
        }
        let ghost mid = out@;
        if step.1 < singles {
            out.push(step.1);
        }
        proof {
            let one: Seq<usize> = if (step.0 as int) < n {
                seq![step.0]
            } else {
                Seq::empty()
            };
            let two: Seq<usize> = if (step.1 as int) < n {
                seq![step.1]
            } else {
                Seq::empty()
            };
            assert(mid =~= before + one);
            assert(out@ =~= mid + two);
            assert(step_leaves(step, n) == one + two);
            assert(out@ =~= before + step_leaves(step, n));
            assert(steps@[steps@.len() - (i + 1)] == step);
        }
        i = i + 1;
    }
    proof {
        lemma_steps_taken_from(steps@, n, k, 0, i as int);
        if out@.len() < k {
            assert(i == steps@.len());
        } else if i < steps@.len() {
            lemma_top_leaves_grow(steps@, n, i as int, steps@.len() as int);
        }
    }
    if out.len() >= wanted {
        Some(out)
    } else {
        None
    }
}

/// Before step count `m`, none of the counts `0 .. m` met `k` leaves, so the
/// walk from `0` goes on to `m`.
proof fn lemma_steps_taken_from(steps: Seq<(usize, usize)>, n: int, k: int, a: int, m: int)
    requires
        0 <= a <= m <= steps.len(),
        forall|j: int| 0 <= j < m ==> #[trigger] top_leaves(steps, n, j).len() < k,
    ensures
        steps_taken(steps, n, k, a) == steps_taken(steps, n, k, m),
    decreases m - a,
{
    if a < m {
        lemma_steps_taken_from(steps, n, k, a + 1, m);
    }
}

/// Taking more steps only extends the leaf ids collected.
proof fn lemma_top_leaves_grow(steps: Seq<(usize, usize)>, n: int, a: int, b: int)
    requires
        0 <= a <= b,
    ensures
        top_leaves(steps, n, a).len() <= top_leaves(steps, n, b).len(),
        top_leaves(steps, n, b).take(top_leaves(steps, n, a).len() as int) == top_leaves(
            steps,
            n,
            a,
        ),
    decreases b - a,
{
    if a < b {
        lemma_top_leaves_grow(steps, n, a, b - 1);
        let pa = top_leaves(steps, n, a);
        let pb = top_leaves(steps, n, b - 1);
        assert((pb + step_leaves(steps[steps.len() - b], n)).take(pa.len() as int) == pb.take(
            pa.len() as int,
        ));
    } else {
        assert(top_leaves(steps, n, a).take(top_leaves(steps, n, a).len() as int) == top_leaves(
            steps,
            n,
            a,
        ));
    }
}

/// Every id collected is a leaf.
proof fn lemma_top_leaves_are_leaves(steps: Seq<(usize, usize)>, n: int, m: int)
    ensures
        forall|t: int|
            0 <= t < top_leaves(steps, n, m).len() ==> (#[trigger] top_leaves(steps, n, m)[t])
                < n,
    decreases m,
{
    if m > 0 {
        lemma_top_leaves_are_leaves(steps, n, m - 1);
        let p = top_leaves(steps, n, m - 1);
        let q = step_leaves(steps[steps.len() - m], n);
        assert forall|t: int| 0 <= t < q.len() implies #[trigger] q[t] < n by {
            let s = steps[steps.len() - m];
            if (s.0 as int) < n && t == 0 {
            } else {
                assert(q[t] == s.1);
            }
        }
        assert forall|t: int| 0 <= t < (p + q).len() implies #[trigger] (p + q)[t] < n by {
            if t < p.len() {
                assert((p + q)[t] == p[t]);
            } else {
                assert((p + q)[t] == q[t - p.len()]);
            }
        }
    }
}

/// What stopping at `steps_taken` gives: a count of steps within range where
/// `k` leaves are met or no step is left, with fewer than `k` leaves before.
proof fn lemma_steps_taken_facts(steps: Seq<(usize, usize)>, n: int, k: int, m: int)
    requires
        0 <= m <= steps.len(),
    ensures
        m <= steps_taken(steps, n, k, m) <= steps.len(),
        steps_taken(steps, n, k, m) == steps.len() || top_leaves(
            steps,
            n,
            steps_taken(steps, n, k, m),
        ).len() >= k,
        forall|j: int|
            m <= j < steps_taken(steps, n, k, m) ==> #[trigger] top_leaves(steps, n, j).len()
                < k,
    decreases steps.len() - m,
{
    if !(m >= steps.len() || top_leaves(steps, n, m).len() >= k) {
        lemma_steps_taken_facts(steps, n, k, m + 1);
    }
}

/// For a dendrogram over `n` leaves and `1 <= k <= n`, the walk collects `k`
/// or `k + 1` ids, all distinct and all leaves.
pub proof fn lemma_hub_walk_bounds(steps: Seq<(usize, usize)>, n: int, k: int)
    requires
        1 <= k <= n,
        names_each_leaf_once(steps, n),
    ensures
        hub_walk(steps, n, k).len() == k || hub_walk(steps, n, k).len() == k + 1,
        hub_walk(steps, n, k).no_duplicates(),
        forall|t: int|
            0 <= t < hub_walk(steps, n, k).len() ==> (#[trigger] hub_walk(steps, n, k)[t]) < n,
{
    let len = steps.len() as int;
    let m = steps_taken(steps, n, k, 0);
    lemma_steps_taken_facts(steps, n, k, 0);
    lemma_top_leaves_are_leaves(steps, n, m);
    let all = top_leaves(steps, n, len);
    let r = top_leaves(steps, n, m);
    lemma_top_leaves_grow(steps, n, m, len);
    assert(r.len() >= k);
    assert(m > 0);
    let before = top_leaves(steps, n, m - 1);
    assert(before.len() < k);
    assert(r == before + step_leaves(steps[len - m], n));
    assert(r == all.take(r.len() as int));
    assert forall|a: int, b: int| 0 <= a < b < r.len() implies r[a] != r[b] by {
        assert(r[a] == all[a] && r[b] == all[b]);
    }
}

} // verus!
