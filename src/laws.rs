//! What holds of every walk: the laws of the resolver, stated over runs (the
//! sequence of nodes that a cursor yields, see `model::is_run`).
use vstd::prelude::*;
use vstd::std_specs::cmp::PartialEqSpec;

use crate::graph::{index_in, lemma_index_in, node_position, GraphView};
use crate::model::{
    closes_cycle, closure, cycle_reachable, is_run, is_walk, lemma_distinct_nodes_bounded,
    lemma_resolve, pending_closure, reaches, relation_wf, resolve,
    run_done, run_failed, satisfied_after, traversal,
};

verus! {

/// What is satisfied after `i` results: `pre` and the first `i` results.
proof fn lemma_satisfied_after_contains(pre: Set<usize>, out: Seq<usize>, i: int, y: usize)
    requires
        0 <= i <= out.len(),
    ensures
        satisfied_after(pre, out, i).contains(y) <==> pre.contains(y) || exists|j: int|
            0 <= j < i && out[j] == y,
{
    if out.take(i).contains(y) {
        let j = choose|j: int| 0 <= j < i && out.take(i)[j] == y;
        assert(out[j] == y);
    }
    if exists|j: int| 0 <= j < i && out[j] == y {
        let j = choose|j: int| 0 <= j < i && out[j] == y;
        assert(out.take(i)[j] == y);
    }
}

/// A walk that avoids a set also avoids any smaller one.
proof fn lemma_walk_mono(rel: Seq<Seq<usize>>, small: Set<usize>, big: Set<usize>, w: Seq<usize>)
    requires
        is_walk(rel, big, w),
        small.subset_of(big),
    ensures
        is_walk(rel, small, w),
{
    assert forall|i: int| 0 <= i < w.len() implies #[trigger] w[i] < rel.len() && !small.contains(w[i]) by {
        assert(w[i] < rel.len() && !big.contains(w[i]));
    }
}

/// The `i`-th result of a run: a node not satisfied before it, whose
/// dependencies all were, reached from the target through unsatisfied nodes.
proof fn lemma_run_step(rel: Seq<Seq<usize>>, pre: Set<usize>, t: usize, out: Seq<usize>, i: int)
    requires
        relation_wf(rel),
        t < rel.len(),
        is_run(rel, pre, t, out),
        0 <= i < out.len(),
    ensures
        out[i] < rel.len(),
        !satisfied_after(pre, out, i).contains(out[i]),
        forall|j: int|
            0 <= j < rel[out[i] as int].len() ==> satisfied_after(pre, out, i).contains(
                #[trigger] rel[out[i] as int][j],
            ),
        reaches(rel, pre, t, out[i]),
{
    let sat = satisfied_after(pre, out, i);
    assert(!sat.contains(t) && resolve(rel, sat, Seq::empty(), t) == Ok::<usize, usize>(out[i]));
    let w = lemma_resolve(rel, sat, Seq::empty(), t);
    assert(Seq::<usize>::empty().push(t)[0] == t);
    assert(w[w.len() - 1] < rel.len() && !sat.contains(w[w.len() - 1]));
    assert(pre.subset_of(sat));
    lemma_walk_mono(rel, pre, sat, w);
}

/// Uniqueness: a run yields no node twice and no node satisfied before it
/// started, so it has at most as many results as there are nodes.
pub proof fn lemma_run_unique(rel: Seq<Seq<usize>>, pre: Set<usize>, t: usize, out: Seq<usize>)
    requires
        relation_wf(rel),
        t < rel.len(),
        is_run(rel, pre, t, out),
    ensures
        out.no_duplicates(),
        forall|i: int| 0 <= i < out.len() ==> !pre.contains(#[trigger] out[i]),
        out.len() <= rel.len(),
{
    assert forall|i: int, j: int| 0 <= i < out.len() && 0 <= j < out.len() && i != j implies out[i] != out[j] by {
        let hi = if i < j {
            j
        } else {
            i
        };
        lemma_run_step(rel, pre, t, out, hi);
        lemma_satisfied_after_contains(pre, out, hi, out[hi]);
    }
    assert forall|i: int| 0 <= i < out.len() implies !pre.contains(#[trigger] out[i]) by {
        lemma_run_step(rel, pre, t, out, i);
        lemma_satisfied_after_contains(pre, out, i, out[i]);
    }
    assert forall|i: int| 0 <= i < out.len() implies #[trigger] out[i] < rel.len() by {
        lemma_run_step(rel, pre, t, out, i);
    }
    lemma_distinct_nodes_bounded(out, rel.len() as usize);
}

/// Topological soundness: every dependency of a node that a run yields was
/// either satisfied before the run started or yielded earlier in it.
pub proof fn lemma_run_sound(rel: Seq<Seq<usize>>, pre: Set<usize>, t: usize, out: Seq<usize>)
    requires
        relation_wf(rel),
        t < rel.len(),
        is_run(rel, pre, t, out),
    ensures
        forall|i: int, d: usize|
            0 <= i < out.len() && rel[out[i] as int].contains(d) ==> pre.contains(d) || exists|j: int|
                0 <= j < i && out[j] == d,
{
    assert forall|i: int, d: usize| 0 <= i < out.len() && rel[out[i] as int].contains(d) implies pre.contains(d)
        || exists|j: int| 0 <= j < i && out[j] == d by {
        lemma_run_step(rel, pre, t, out, i);
        let k = choose|k: int| 0 <= k < rel[out[i] as int].len() && rel[out[i] as int][k] == d;
        assert(satisfied_after(pre, out, i).contains(rel[out[i] as int][k]));
        lemma_satisfied_after_contains(pre, out, i, d);
    }
}

/// Pruning: a run yields no node satisfied before it started, nor any node
/// that the target reaches only through such nodes.
pub proof fn lemma_run_pruned(rel: Seq<Seq<usize>>, pre: Set<usize>, t: usize, out: Seq<usize>)
    requires
        relation_wf(rel),
        t < rel.len(),
        is_run(rel, pre, t, out),
    ensures
        forall|i: int| 0 <= i < out.len() ==> !pre.contains(#[trigger] out[i]),
        forall|i: int| 0 <= i < out.len() ==> pending_closure(rel, pre, t).contains(#[trigger] out[i]),
{
    lemma_run_unique(rel, pre, t, out);
    assert forall|i: int| 0 <= i < out.len() implies pending_closure(rel, pre, t).contains(#[trigger] out[i]) by {
        lemma_run_step(rel, pre, t, out, i);
    }
}

/// Every node of a walk from the target through unsatisfied nodes is yielded
/// by a run that has reached its end.
proof fn lemma_walk_yielded(rel: Seq<Seq<usize>>, pre: Set<usize>, t: usize, out: Seq<usize>, w: Seq<usize>, k: int)
    requires
        relation_wf(rel),
        t < rel.len(),
        is_run(rel, pre, t, out),
        run_done(pre, t, out),
        is_walk(rel, pre, w),
        w[0] == t,
        0 <= k < w.len(),
    ensures
        out.contains(w[k]),
    decreases k,
{
    assert(w[k] < rel.len() && !pre.contains(w[k]));
    if k == 0 {
        lemma_satisfied_after_contains(pre, out, out.len() as int, t);
    } else {
        lemma_walk_yielded(rel, pre, t, out, w, k - 1);
        let i = choose|i: int| 0 <= i < out.len() && out[i] == w[k - 1];
        assert(crate::model::depends_on(rel, w[k - 1], w[k - 1 + 1]));
        lemma_run_sound(rel, pre, t, out);
    }
}

/// Completeness: a run that has reached its end has yielded exactly the nodes
/// that the target reaches through nodes not satisfied before it started.
pub proof fn lemma_run_complete(rel: Seq<Seq<usize>>, pre: Set<usize>, t: usize, out: Seq<usize>)
    requires
        relation_wf(rel),
        t < rel.len(),
        is_run(rel, pre, t, out),
        run_done(pre, t, out),
    ensures
        out.to_set() == pending_closure(rel, pre, t),
{
    lemma_run_pruned(rel, pre, t, out);
    assert forall|x: usize| out.to_set().contains(x) <==> pending_closure(rel, pre, t).contains(x) by {
        if out.contains(x) {
            let i = choose|i: int| 0 <= i < out.len() && out[i] == x;
            assert(pending_closure(rel, pre, t).contains(out[i]));
        }
        if pending_closure(rel, pre, t).contains(x) {
            let w = choose|w: Seq<usize>| #[trigger] is_walk(rel, pre, w) && w[0] == t && w.last() == x;
            lemma_walk_yielded(rel, pre, t, out, w, w.len() - 1);
        }
    }
    assert(out.to_set() =~= pending_closure(rel, pre, t));
}

/// Completeness against the full closure: the nodes yielded by a run that has
/// reached its end, together with those satisfied before it started, are the
/// whole transitive closure of the target. This needs the satisfied nodes to
/// lie in that closure and to hide no other node of it: every node of the
/// closure that is not satisfied is reached through unsatisfied nodes.
pub proof fn lemma_run_covers_closure(rel: Seq<Seq<usize>>, pre: Set<usize>, t: usize, out: Seq<usize>)
    requires
        relation_wf(rel),
        t < rel.len(),
        is_run(rel, pre, t, out),
        run_done(pre, t, out),
        pre.subset_of(closure(rel, t)),
        forall|x: usize| #[trigger] closure(rel, t).contains(x) && !pre.contains(x) ==> reaches(rel, pre, t, x),
    ensures
        out.to_set().union(pre) == closure(rel, t),
{
    lemma_run_complete(rel, pre, t, out);
    assert forall|x: usize| out.to_set().union(pre).contains(x) <==> closure(rel, t).contains(x) by {
        if pending_closure(rel, pre, t).contains(x) {
            let w = choose|w: Seq<usize>| #[trigger] is_walk(rel, pre, w) && w[0] == t && w.last() == x;
            lemma_walk_mono(rel, Set::empty(), pre, w);
        }
    }
    assert(out.to_set().union(pre) =~= closure(rel, t));
}

/// Along a walk through nodes yielded by a finished run, each node was yielded
/// before the one that depends on it.
proof fn lemma_walk_descends(
    rel: Seq<Seq<usize>>,
    pre: Set<usize>,
    t: usize,
    out: Seq<usize>,
    w: Seq<usize>,
    k: int,
    m: int,
)
    requires
        relation_wf(rel),
        t < rel.len(),
        is_run(rel, pre, t, out),
        run_done(pre, t, out),
        is_walk(rel, pre, w),
        w[0] == t,
        0 <= k < m < w.len(),
    ensures
        forall|a: int, b: int|
            0 <= a < out.len() && 0 <= b < out.len() && out[a] == w[k] && out[b] == w[m] ==> b < a,
    decreases m - k,
{
    lemma_run_unique(rel, pre, t, out);
    lemma_run_sound(rel, pre, t, out);
    assert(w[m] < rel.len() && !pre.contains(w[m]));
    assert(crate::model::depends_on(rel, w[m - 1], w[m - 1 + 1]));
    if m > k + 1 {
        lemma_walk_descends(rel, pre, t, out, w, k, m - 1);
        lemma_walk_yielded(rel, pre, t, out, w, m - 1);
    }
}

/// Cycle detection: a run stops on a cycle error only where a cycle can be
/// reached from the target through unsatisfied nodes, and a run that reaches
/// its end has met no such cycle. As a run has at most as many results as
/// there are nodes, a walk towards a target that reaches a cycle ends in the
/// error, and a walk towards one that reaches none never meets it.
pub proof fn lemma_run_cycles(rel: Seq<Seq<usize>>, pre: Set<usize>, t: usize, out: Seq<usize>)
    requires
        relation_wf(rel),
        t < rel.len(),
        is_run(rel, pre, t, out),
    ensures
        run_failed(rel, pre, t, out) ==> cycle_reachable(rel, pre, t),
        run_done(pre, t, out) ==> !cycle_reachable(rel, pre, t),
{
    let sat = satisfied_after(pre, out, out.len() as int);
    if run_failed(rel, pre, t, out) {
        let w = lemma_resolve(rel, sat, Seq::empty(), t);
        assert(Seq::<usize>::empty().push(t)[0] == t);
        assert(pre.subset_of(sat));
        lemma_walk_mono(rel, pre, sat, w);
        assert(is_walk(rel, pre, w) && w[0] == t && closes_cycle(w));
    }
    if run_done(pre, t, out) && cycle_reachable(rel, pre, t) {
        let w = choose|w: Seq<usize>| #[trigger] is_walk(rel, pre, w) && w[0] == t && closes_cycle(w);
        let k = choose|k: int| 0 <= k < w.len() - 1 && #[trigger] w[k] == w.last();
        let m = w.len() - 1;
        lemma_walk_yielded(rel, pre, t, out, w, k);
        let a = choose|a: int| 0 <= a < out.len() && out[a] == w[k];
        lemma_walk_descends(rel, pre, t, out, w, k, m);
        assert(out[a] == w[m]);
    }
}

/// Two runs towards one target over one relation, from one satisfied set,
/// agree on their common length.
proof fn lemma_runs_prefix(rel: Seq<Seq<usize>>, pre: Set<usize>, t: usize, a: Seq<usize>, b: Seq<usize>, i: int)
    requires
        is_run(rel, pre, t, a),
        is_run(rel, pre, t, b),
        0 <= i <= a.len(),
        i <= b.len(),
    ensures
        a.take(i) == b.take(i),
    decreases i,
{
    if i > 0 {
        lemma_runs_prefix(rel, pre, t, a, b, i - 1);
        assert(satisfied_after(pre, a, i - 1) == satisfied_after(pre, b, i - 1));
        assert(a.take(i) == a.take(i - 1).push(a[i - 1]));
        assert(b.take(i) == b.take(i - 1).push(b[i - 1]));
    }
}

/// Determinism: the walk is a function of the relation, the satisfied set and
/// the target. Of two runs, the shorter is the start of the longer; two runs
/// that reach their end are the same; and no run that reaches its end is the
/// start of one that fails. So identical registrations, which give identical
/// graphs, give identical walks.
pub proof fn lemma_run_deterministic(rel: Seq<Seq<usize>>, pre: Set<usize>, t: usize, a: Seq<usize>, b: Seq<usize>)
    requires
        is_run(rel, pre, t, a),
        is_run(rel, pre, t, b),
        a.len() <= b.len(),
    ensures
        a == b.take(a.len() as int),
        run_done(pre, t, a) ==> a == b && !run_failed(rel, pre, t, b),
        run_done(pre, t, b) ==> !run_failed(rel, pre, t, a),
{
    lemma_runs_prefix(rel, pre, t, a, b, a.len() as int);
    assert(a.take(a.len() as int) == a);
    if run_done(pre, t, a) && a.len() < b.len() {
        assert(satisfied_after(pre, b, a.len() as int) == satisfied_after(pre, a, a.len() as int));
        assert(!satisfied_after(pre, b, a.len() as int).contains(t));
    }
    if run_done(pre, t, b) && a.len() < b.len() {
        assert(satisfied_after(pre, b, a.len() as int) == satisfied_after(pre, a, a.len() as int));
        assert(resolve(rel, satisfied_after(pre, b, a.len() as int), Seq::empty(), t) == Ok::<usize, usize>(b[a.len() as int]));
    }
    if a.len() == b.len() {
        assert(b.take(b.len() as int) == b);
    }
}

/// A run that reaches its end is the whole walk.
pub proof fn lemma_traversal_done(rel: Seq<Seq<usize>>, pre: Set<usize>, t: usize, out: Seq<usize>)
    requires
        is_run(rel, pre, t, out),
        run_done(pre, t, out),
    ensures
        traversal(rel, pre, t) == Some(out),
{
    let a = choose|a: Seq<usize>| #[trigger] is_run(rel, pre, t, a) && run_done(pre, t, a);
    if a.len() <= out.len() {
        lemma_run_deterministic(rel, pre, t, a, out);
    } else {
        lemma_run_deterministic(rel, pre, t, out, a);
    }
}

/// A run whose next step meets a cycle leaves the whole walk undefined.
pub proof fn lemma_traversal_failed(rel: Seq<Seq<usize>>, pre: Set<usize>, t: usize, out: Seq<usize>)
    requires
        is_run(rel, pre, t, out),
        run_failed(rel, pre, t, out),
    ensures
        traversal(rel, pre, t) is None,
{
    if exists|a: Seq<usize>| #[trigger] is_run(rel, pre, t, a) && run_done(pre, t, a) {
        let a = choose|a: Seq<usize>| #[trigger] is_run(rel, pre, t, a) && run_done(pre, t, a);
        if a.len() <= out.len() {
            lemma_run_deterministic(rel, pre, t, a, out);
        } else {
            lemma_run_deterministic(rel, pre, t, out, a);
        }
    }
}

/// Registering several dependencies of one node at once is registering them
/// one at a time, for a node that its type's `==` finds equal to itself.
pub proof fn lemma_batch_is_repeated<T: PartialEq>(g: GraphView<T>, node: T, deps: Seq<T>)
    requires
        node.eq_spec(&node),
        g.nodes.len() + deps.len() < usize::MAX,
    ensures
        g.with_dependencies(node, deps) == g.with_each_dependency(node, deps),
        index_in(g.with_dependencies(node, deps).nodes, node) == Some(node_position(g.nodes, node)),
        g.with_dependencies(node, deps).nodes.len() <= g.nodes.len() + 1 + deps.len(),
    decreases deps.len(),
{
    let a = node_position(g.nodes, node);
    let g1 = g.with_node(node);
    lemma_index_in(g.nodes, node);
    if index_in(g.nodes, node) is None {
        assert(g1.nodes.drop_last() == g.nodes);
    }
    if deps.len() > 0 {
        let init = deps.drop_last();
        lemma_batch_is_repeated(g, node, init);
        let big = g1.with_edges_from(a, init);
        assert(big.with_node(node) == big);
        if index_in(big.nodes, deps.last()) is None {
            assert(big.with_node(deps.last()).nodes.drop_last() == big.nodes);
        }
    }
}

/// Marking again nodes that are all satisfied already changes nothing.
pub proof fn lemma_remark_noop<T: PartialEq>(g: GraphView<T>, xs: Seq<T>)
    requires
        g.positions_of(xs).subset_of(g.satisfied),
    ensures
        g.marked(xs) == g,
{
    assert(g.marked(xs).satisfied =~= g.satisfied);
}

/// Marking the same nodes twice is marking them once.
pub proof fn lemma_mark_idempotent<T: PartialEq>(g: GraphView<T>, xs: Seq<T>)
    ensures
        g.marked(xs).marked(xs) == g.marked(xs),
{
    assert(g.marked(xs).marked(xs).satisfied =~= g.marked(xs).satisfied);
}

} // verus!
