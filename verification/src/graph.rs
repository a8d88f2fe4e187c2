//! Reachability in finite directed graphs.

use vstd::prelude::*;
use vstd::set_lib::{lemma_int_range, lemma_len_subset, set_int_range};

verus! {

/// A non-empty sequence in which each element is related to the next.
pub open spec fn is_walk<T>(rel: spec_fn(T, T) -> bool, w: Seq<T>) -> bool {
    &&& w.len() >= 1
    &&& forall|i: int| 0 <= i < w.len() - 1 ==> rel(#[trigger] w[i], w[i + 1])
}

/// Whether some walk leads from `a` to `b`. Every element reaches itself.
pub open spec fn reachable<T>(rel: spec_fn(T, T) -> bool, a: T, b: T) -> bool {
    exists|w: Seq<T>| is_walk(rel, w) && w[0] == a && #[trigger] w.last() == b
}

/// Every element reaches itself.
pub proof fn lemma_reach_self<T>(rel: spec_fn(T, T) -> bool, a: T)
    ensures
        reachable(rel, a, a),
{
    let w = seq![a];
    assert(is_walk(rel, w));
    assert(w[0] == a && w.last() == a);
}

/// A walk can be extended by one step.
pub proof fn lemma_reach_step<T>(rel: spec_fn(T, T) -> bool, a: T, b: T, c: T)
    requires
        reachable(rel, a, b),
        rel(b, c),
    ensures
        reachable(rel, a, c),
{
    let w = choose|w: Seq<T>| is_walk(rel, w) && w[0] == a && #[trigger] w.last() == b;
    let w2 = w.push(c);
    assert forall|i: int| 0 <= i < w2.len() - 1 implies rel(#[trigger] w2[i], w2[i + 1]) by {
        if i < w.len() - 1 {
            assert(w2[i] == w[i] && w2[i + 1] == w[i + 1]);
        } else {
            assert(w2[i] == b && w2[i + 1] == c);
        }
    }
    assert(is_walk(rel, w2) && w2[0] == a && w2.last() == c);
}

/// A set that holds the start of a walk and is closed under the relation
/// holds every element of the walk.
pub proof fn lemma_closed_holds_walk<T>(rel: spec_fn(T, T) -> bool, closed: Set<T>, w: Seq<T>, k: int)
    requires
        is_walk(rel, w),
        closed.contains(w[0]),
        forall|x: T, y: T| closed.contains(x) && #[trigger] rel(x, y) ==> closed.contains(y),
        0 <= k < w.len(),
    ensures
        closed.contains(w[k]),
    decreases k,
{
    if k > 0 {
        lemma_closed_holds_walk(rel, closed, w, k - 1);
        assert(rel(w[k - 1], w[k - 1 + 1]));
    }
}

/// A relation that holds of fewer pairs reaches no further.
pub proof fn lemma_reach_monotone<T>(small: spec_fn(T, T) -> bool, large: spec_fn(T, T) -> bool, a: T, b: T)
    requires
        reachable(small, a, b),
        forall|x: T, y: T| #[trigger] small(x, y) ==> large(x, y),
    ensures
        reachable(large, a, b),
{
    let w = choose|w: Seq<T>| is_walk(small, w) && w[0] == a && #[trigger] w.last() == b;
    assert forall|i: int| 0 <= i < w.len() - 1 implies large(#[trigger] w[i], w[i + 1]) by {
        assert(small(w[i], w[i + 1]));
    }
    assert(is_walk(large, w) && w[0] == a && w.last() == b);
}

/// The edge relation of a graph given by successor lists: node `a` has an
/// edge to each node listed under it.
pub open spec fn edges(adj: Seq<Vec<usize>>) -> spec_fn(usize, usize) -> bool {
    |a: usize, b: usize| a < adj.len() && adj[a as int]@.contains(b)
}

/// All listed successors are nodes of the graph.
pub open spec fn graph_wf(adj: Seq<Vec<usize>>) -> bool {
    forall|a: int, k: int| 0 <= a < adj.len() && 0 <= k < adj[a]@.len() ==> (#[trigger] adj[a]@[k]) < adj.len()
}

/// The positions that are not marked yet.
pub open spec fn unmarked(seen: Seq<bool>) -> Set<int> {
    Set::new(|i: int| 0 <= i < seen.len() && !seen[i])
}

proof fn lemma_unmarked_finite(seen: Seq<bool>)
    ensures
        unmarked(seen).finite(),
        unmarked(seen).len() <= seen.len(),
{
    lemma_int_range(0, seen.len() as int);
    assert(unmarked(seen).subset_of(set_int_range(0, seen.len() as int)));
    lemma_len_subset(unmarked(seen), set_int_range(0, seen.len() as int));
}

proof fn lemma_mark_one(seen: Seq<bool>, b: int)
    requires
        0 <= b < seen.len(),
        !seen[b],
    ensures
        unmarked(seen.update(b, true)).len() < unmarked(seen).len(),
{
    lemma_unmarked_finite(seen);
    assert(unmarked(seen.update(b, true)) =~= unmarked(seen).remove(b));
    assert(unmarked(seen).contains(b));
}

/// Marks every node that can be reached from `start`.
pub fn reach_from(adj: &Vec<Vec<usize>>, start: usize) -> (seen: Vec<bool>)
    requires
        start < adj.len(),
        graph_wf(adj@),
    ensures
        seen.len() == adj.len(),
        forall|b: usize| b < adj.len() ==> (#[trigger] seen[b as int] <==> reachable(edges(adj@), start, b)),
{
    let n = adj.len();
    let ghost rel = edges(adj@);
    let mut seen: Vec<bool> = Vec::new();
    let mut i: usize = 0;
    while i < n
        invariant
            i <= n,
            seen.len() == i,
            forall|j: int| 0 <= j < i ==> !seen[j],
        decreases n - i,
    {
        seen.push(false);
        i += 1;
    }
    seen[start] = true;
    let mut stack: Vec<usize> = Vec::new();
    stack.push(start);
    proof {
        lemma_reach_self(rel, start);
        lemma_unmarked_finite(seen@);
        assert(stack@[0] == start);
        assert(stack@.contains(start));
    }
    while stack.len() > 0
        invariant
            n == adj.len(),
            rel == edges(adj@),
            graph_wf(adj@),
            start < n,
            seen.len() == n,
            seen[start as int],
            forall|k: int| 0 <= k < stack.len() ==> (#[trigger] stack[k]) < n && seen[stack[k] as int],
            forall|b: usize| b < n && #[trigger] seen[b as int] ==> reachable(rel, start, b),
            forall|a: usize, b: usize|
                a < n && seen[a as int] && !stack@.contains(a) && #[trigger] rel(a, b) ==> seen[b as int],
        decreases unmarked(seen@).len(), stack.len(),
    {
        let ghost stack0 = stack@;
        let ghost seen0 = seen@;
        let a = stack.pop().unwrap();
        assert(stack0[stack0.len() - 1] == a);
        assert(forall|x: usize| stack0.contains(x) ==> x == a || stack@.contains(x)) by {
            assert forall|x: usize| stack0.contains(x) implies x == a || stack@.contains(x) by {
                let j = choose|j: int| 0 <= j < stack0.len() && stack0[j] == x;
                if j < stack0.len() - 1 {
                    assert(stack@[j] == x);
                }
            }
        }
        let list = &adj[a];
        let mut k: usize = 0;
        while k < list.len()
            invariant
                n == adj.len(),
                rel == edges(adj@),
                graph_wf(adj@),
                a < n,
                start < n,
                list == &adj[a as int],
                k <= list.len(),
                seen.len() == n,
                seen[start as int],
                stack.len() <= stack0.len() - 1 + k,
                unmarked(seen@).len() <= unmarked(seen0).len(),
                stack.len() > stack0.len() - 1 ==> unmarked(seen@).len() < unmarked(seen0).len(),
                forall|j: int| 0 <= j < stack.len() ==> (#[trigger] stack[j]) < n && seen[stack[j] as int],
                forall|b: usize| b < n && #[trigger] seen[b as int] ==> reachable(rel, start, b),
                seen[a as int],
                seen0.len() == n,
                forall|j: int| 0 <= j < k ==> seen[(#[trigger] list@[j]) as int],
                forall|x: usize, y: usize|
                    x < n && x != a && seen[x as int] && !stack@.contains(x) && #[trigger] rel(x, y)
                        ==> seen[y as int],
                forall|x: usize| x < n && seen0[x as int] ==> seen[x as int],
            decreases list.len() - k,
        {
            let b = list[k];
            assert(b < n);
            assert(list@.contains(b));
            assert(rel(a, b));
            if !seen[b] {
                proof {
                    lemma_reach_step(rel, start, a, b);
                    lemma_mark_one(seen@, b as int);
                }
                let ghost stack1 = stack@;
                seen[b] = true;
                stack.push(b);
                assert(stack@[stack1.len() as int] == b);
                assert(stack@.contains(b));
                assert(forall|x: usize| stack1.contains(x) ==> stack@.contains(x)) by {
                    assert forall|x: usize| stack1.contains(x) implies stack@.contains(x) by {
                        let j = choose|j: int| 0 <= j < stack1.len() && stack1[j] == x;
                        assert(stack@[j] == x);
                    }
                }
            }
            k += 1;
        }
        proof {
            assert forall|x: usize, y: usize|
                x < n && seen[x as int] && !stack@.contains(x) && #[trigger] rel(x, y) implies seen[y as int] by {
                if x == a {
                    let j = choose|j: int| 0 <= j < list@.len() && list@[j] == y;
                    assert(seen[list@[j] as int]);
                }
            }
        }
    }
    proof {
        let closed = Set::new(|x: usize| x < n && seen[x as int]);
        assert forall|b: usize| b < n && reachable(rel, start, b) implies #[trigger] seen[b as int] by {
            let w = choose|w: Seq<usize>| is_walk(rel, w) && w[0] == start && #[trigger] w.last() == b;
            assert forall|x: usize, y: usize| closed.contains(x) && #[trigger] rel(x, y) implies closed.contains(y) by {
                assert(!stack@.contains(x));
                let j = choose|j: int| 0 <= j < adj[x as int]@.len() && adj[x as int]@[j] == y;
                assert(adj@[x as int]@[j] < n);
            }
            lemma_closed_holds_walk(rel, closed, w, w.len() - 1);
        }
    }
    seen
}

} // verus!

verus! {

/// A labelling carries walks of the graph over to walks of the labels.
pub proof fn lemma_labels_forward<T>(
    adj: Seq<Vec<usize>>,
    rel: spec_fn(T, T) -> bool,
    label: Seq<T>,
    a: usize,
    b: usize,
)
    requires
        graph_wf(adj),
        label.len() == adj.len(),
        a < adj.len(),
        forall|x: usize, y: usize|
            x < adj.len() && y < adj.len() && #[trigger] edges(adj)(x, y) ==> rel(label[x as int], label[y as int]),
        reachable(edges(adj), a, b),
    ensures
        b < adj.len(),
        reachable(rel, label[a as int], label[b as int]),
{
    let e = edges(adj);
    let w = choose|w: Seq<usize>| is_walk(e, w) && w[0] == a && #[trigger] w.last() == b;
    assert forall|i: int| 0 <= i < w.len() implies (#[trigger] w[i]) < adj.len() by {
        if i > 0 {
            assert(e(w[i - 1], w[i - 1 + 1]));
            let x = w[i - 1];
            let list = adj[x as int]@;
            assert(list.contains(w[i]));
            let j = choose|j: int| 0 <= j < list.len() && list[j] == w[i];
            assert(adj[x as int]@[j] < adj.len());
        }
    }
    let w2 = Seq::new(w.len(), |i: int| label[w[i] as int]);
    assert forall|i: int| 0 <= i < w2.len() - 1 implies rel(#[trigger] w2[i], w2[i + 1]) by {
        assert(e(w[i], w[i + 1]));
        assert(w[i] < adj.len() && w[i + 1] < adj.len());
    }
    assert(is_walk(rel, w2) && w2[0] == label[a as int] && w2.last() == label[b as int]);
}

proof fn lemma_labels_backward_at<T>(
    adj: Seq<Vec<usize>>,
    rel: spec_fn(T, T) -> bool,
    label: Seq<T>,
    a: usize,
    w: Seq<T>,
    k: int,
) -> (y: usize)
    requires
        label.len() == adj.len(),
        a < adj.len(),
        forall|x: usize, t: T|
            x < adj.len() && #[trigger] rel(label[x as int], t) ==> exists|y: usize|
                y < adj.len() && label[y as int] == t && #[trigger] edges(adj)(x, y),
        is_walk(rel, w),
        w[0] == label[a as int],
        0 <= k < w.len(),
    ensures
        y < adj.len(),
        label[y as int] == w[k],
        reachable(edges(adj), a, y),
    decreases k,
{
    if k == 0 {
        lemma_reach_self(edges(adj), a);
        a
    } else {
        let x = lemma_labels_backward_at(adj, rel, label, a, w, k - 1);
        assert(rel(w[k - 1], w[k - 1 + 1]));
        assert(rel(label[x as int], w[k]));
        let y = choose|y: usize| y < adj.len() && label[y as int] == w[k] && #[trigger] edges(adj)(x, y);
        lemma_reach_step(edges(adj), a, x, y);
        y
    }
}

/// Where every related label is the label of some successor, whatever the
/// label of `a` reaches is the label of a node that `a` reaches.
pub proof fn lemma_labels_backward<T>(
    adj: Seq<Vec<usize>>,
    rel: spec_fn(T, T) -> bool,
    label: Seq<T>,
    a: usize,
    t: T,
) -> (y: usize)
    requires
        label.len() == adj.len(),
        a < adj.len(),
        forall|x: usize, t: T|
            x < adj.len() && #[trigger] rel(label[x as int], t) ==> exists|y: usize|
                y < adj.len() && label[y as int] == t && #[trigger] edges(adj)(x, y),
        reachable(rel, label[a as int], t),
    ensures
        y < adj.len(),
        label[y as int] == t,
        reachable(edges(adj), a, y),
{
    let w = choose|w: Seq<T>| is_walk(rel, w) && w[0] == label[a as int] && #[trigger] w.last() == t;
    lemma_labels_backward_at(adj, rel, label, a, w, w.len() - 1)
}

} // verus!
