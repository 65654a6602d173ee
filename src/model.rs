//! The mathematical model of a dependency relation and of a walk over it.
//!
//! Nodes are positions `0..n`. A relation is a sequence of `n` dependency
//! lists: `rel[a]` lists, in registration order, the nodes that `a` depends on.
use vstd::prelude::*;
use vstd::set_lib::*;

verus! {

/// Every listed dependency names a node, and no list names a node twice.
pub open spec fn relation_wf(rel: Seq<Seq<usize>>) -> bool {
    &&& rel.len() <= usize::MAX
    &&& forall|a: int, j: int|
        0 <= a < rel.len() && 0 <= j < rel[a].len() ==> #[trigger] rel[a][j] < rel.len()
    &&& forall|a: int| 0 <= a < rel.len() ==> (#[trigger] rel[a]).no_duplicates()
}

/// `a` depends directly on `b`.
pub open spec fn depends_on(rel: Seq<Seq<usize>>, a: usize, b: usize) -> bool {
    a < rel.len() && rel[a as int].contains(b)
}

/// `rel` with the edge `a -> b` added, unless it is there already.
pub open spec fn with_edge(rel: Seq<Seq<usize>>, a: usize, b: usize) -> Seq<Seq<usize>> {
    if rel[a as int].contains(b) {
        rel
    } else {
        rel.update(a as int, rel[a as int].push(b))
    }
}

/// The set of nodes whose flag is up.
pub open spec fn flag_set(flags: Seq<bool>) -> Set<usize> {
    Set::new(|i: usize| i < flags.len() && flags[i as int])
}

/// The first entry of `list`, from position `k` on, that is not in `sat`.
pub open spec fn first_unsatisfied(list: Seq<usize>, sat: Set<usize>, k: int) -> Option<usize>
    decreases list.len() - k,
{
    if k < 0 || k >= list.len() {
        None
    } else if !sat.contains(list[k]) {
        Some(list[k])
    } else {
        first_unsatisfied(list, sat, k + 1)
    }
}

/// One resolution step from `cur`, with `path` the nodes already walked to get
/// there: follow the first unsatisfied dependency until a node has none left
/// (`Ok` of that node), or until a node comes back on the path (`Err` of the
/// node at which the cycle closed). A path as long as the node count has
/// necessarily repeated a node, which bounds the walk.
pub open spec fn resolve(rel: Seq<Seq<usize>>, sat: Set<usize>, path: Seq<usize>, cur: usize) -> Result<usize, usize>
    decreases rel.len() - path.len(),
{
    if path.contains(cur) || path.len() >= rel.len() {
        Err(cur)
    } else {
        match first_unsatisfied(rel[cur as int], sat, 0) {
            None => Ok(cur),
            Some(d) => resolve(rel, sat, path.push(cur), d),
        }
    }
}

/// `w` follows dependency edges through nodes outside `sat`.
pub open spec fn is_walk(rel: Seq<Seq<usize>>, sat: Set<usize>, w: Seq<usize>) -> bool {
    &&& w.len() > 0
    &&& forall|i: int| 0 <= i < w.len() ==> #[trigger] w[i] < rel.len() && !sat.contains(w[i])
    &&& forall|i: int| 0 <= i < w.len() - 1 ==> #[trigger] depends_on(rel, w[i], w[i + 1])
}

/// `to` is reached from `from` through nodes outside `sat`.
pub open spec fn reaches(rel: Seq<Seq<usize>>, sat: Set<usize>, from: usize, to: usize) -> bool {
    exists|w: Seq<usize>| #[trigger] is_walk(rel, sat, w) && w[0] == from && w.last() == to
}

/// The nodes reached from `t` through nodes outside `sat`: what is still to be
/// resolved for `t`.
pub open spec fn pending_closure(rel: Seq<Seq<usize>>, sat: Set<usize>, t: usize) -> Set<usize> {
    Set::new(|x: usize| reaches(rel, sat, t, x))
}

/// The transitive dependency closure of `t`, `t` included.
pub open spec fn closure(rel: Seq<Seq<usize>>, t: usize) -> Set<usize> {
    pending_closure(rel, Set::empty(), t)
}

/// `w` ends on a node that it has visited before.
pub open spec fn closes_cycle(w: Seq<usize>) -> bool {
    exists|k: int| 0 <= k < w.len() - 1 && #[trigger] w[k] == w.last()
}

/// A dependency cycle can be reached from `t` through nodes outside `sat`.
pub open spec fn cycle_reachable(rel: Seq<Seq<usize>>, sat: Set<usize>, t: usize) -> bool {
    exists|w: Seq<usize>| #[trigger] is_walk(rel, sat, w) && w[0] == t && closes_cycle(w)
}

/// The nodes counted as satisfied after the first `i` results of a walk that
/// started from `pre`.
pub open spec fn satisfied_after(pre: Set<usize>, out: Seq<usize>, i: int) -> Set<usize> {
    pre.union(out.take(i).to_set())
}

/// `out` is what a walk towards `t` yields, one result per step, when `pre` was
/// satisfied before it started: each step resolves `t` against what is
/// satisfied so far.
pub open spec fn is_run(rel: Seq<Seq<usize>>, pre: Set<usize>, t: usize, out: Seq<usize>) -> bool {
    forall|i: int|
        0 <= i < out.len() ==> {
            &&& !(#[trigger] satisfied_after(pre, out, i)).contains(t)
            &&& resolve(rel, satisfied_after(pre, out, i), Seq::empty(), t) == Ok::<usize, usize>(out[i])
        }
}

/// The run `out` has reached its end: `t` is satisfied.
pub open spec fn run_done(pre: Set<usize>, t: usize, out: Seq<usize>) -> bool {
    satisfied_after(pre, out, out.len() as int).contains(t)
}

/// The next step of the run `out` meets a cycle.
pub open spec fn run_failed(rel: Seq<Seq<usize>>, pre: Set<usize>, t: usize, out: Seq<usize>) -> bool {
    &&& !run_done(pre, t, out)
    &&& resolve(rel, satisfied_after(pre, out, out.len() as int), Seq::empty(), t) is Err
}

/// The whole walk towards `t` when `pre` is satisfied: the run that reaches
/// its end (there is at most one), or `None` when the walk meets a cycle.
pub open spec fn traversal(rel: Seq<Seq<usize>>, pre: Set<usize>, t: usize) -> Option<Seq<usize>> {
    if exists|out: Seq<usize>| #[trigger] is_run(rel, pre, t, out) && run_done(pre, t, out) {
        Some(choose|out: Seq<usize>| #[trigger] is_run(rel, pre, t, out) && run_done(pre, t, out))
    } else {
        None
    }
}

/// A sequence without repeats of nodes below `n` has at most `n` entries.
pub proof fn lemma_distinct_nodes_bounded(s: Seq<usize>, n: usize)
    requires
        s.no_duplicates(),
        forall|i: int| 0 <= i < s.len() ==> #[trigger] s[i] < n,
    ensures
        s.len() <= n,
{
    broadcast use range_set_properties;

    s.unique_seq_to_set();
    let r = Set::<usize>::range(0, n);
    assert(s.to_set().subset_of(r));
    lemma_len_subset(s.to_set(), r);
}

/// What `first_unsatisfied` returns.
pub proof fn lemma_first_unsatisfied(list: Seq<usize>, sat: Set<usize>, k: int)
    requires
        0 <= k,
    ensures
        match first_unsatisfied(list, sat, k) {
            Some(d) => !sat.contains(d) && exists|j: int| k <= j < list.len() && list[j] == d,
            None => forall|j: int| k <= j < list.len() ==> sat.contains(#[trigger] list[j]),
        },
    decreases list.len() - k,
{
    if k < list.len() && sat.contains(list[k]) {
        lemma_first_unsatisfied(list, sat, k + 1);
    }
}

/// A resolution step walks from where it started: to a node all of whose
/// dependencies are satisfied, or onto a cycle. The walk is returned.
pub proof fn lemma_resolve(rel: Seq<Seq<usize>>, sat: Set<usize>, path: Seq<usize>, cur: usize) -> (w:
    Seq<usize>)
    requires
        relation_wf(rel),
        cur < rel.len(),
        !sat.contains(cur),
        path.no_duplicates(),
        forall|i: int| 0 <= i < path.len() ==> #[trigger] path[i] < rel.len() && !sat.contains(path[i]),
        forall|i: int| 0 <= i < path.len() - 1 ==> #[trigger] depends_on(rel, path[i], path[i + 1]),
        path.len() > 0 ==> depends_on(rel, path.last(), cur),
    ensures
        is_walk(rel, sat, w),
        w[0] == path.push(cur)[0],
        match resolve(rel, sat, path, cur) {
            Ok(x) => {
                &&& w.last() == x
                &&& forall|j: int| 0 <= j < rel[x as int].len() ==> sat.contains(#[trigger] rel[x as int][j])
            },
            Err(c) => w.last() == c && closes_cycle(w),
        },
    decreases rel.len() - path.len(),
{
    let p = path.push(cur);
    assert(is_walk(rel, sat, p)) by {
        assert forall|i: int| 0 <= i < p.len() - 1 implies #[trigger] depends_on(rel, p[i], p[i + 1]) by {
            if i < path.len() - 1 {
                assert(depends_on(rel, path[i], path[i + 1]));
            }
        }
    }
    if path.contains(cur) {
        let k = choose|k: int| 0 <= k < path.len() && path[k] == cur;
        assert(p[k] == p.last());
        p
    } else if path.len() >= rel.len() {
        assert(p.no_duplicates());
        lemma_distinct_nodes_bounded(p, rel.len() as usize);
        p
    } else {
        lemma_first_unsatisfied(rel[cur as int], sat, 0);
        match first_unsatisfied(rel[cur as int], sat, 0) {
            None => p,
            Some(d) => {
                assert(p.no_duplicates());
                assert(depends_on(rel, p.last(), d));
                let w = lemma_resolve(rel, sat, p, d);
                assert(p.push(d)[0] == p[0]);
                w
            },
        }
    }
}

/// A run grows by the result of resolving its target once more.
pub proof fn lemma_run_push(rel: Seq<Seq<usize>>, pre: Set<usize>, t: usize, out: Seq<usize>, x: usize)
    requires
        is_run(rel, pre, t, out),
        !run_done(pre, t, out),
        resolve(rel, satisfied_after(pre, out, out.len() as int), Seq::empty(), t) == Ok::<
            usize,
            usize,
        >(x),
    ensures
        is_run(rel, pre, t, out.push(x)),
        satisfied_after(pre, out.push(x), out.len() as int + 1) == satisfied_after(
            pre,
            out,
            out.len() as int,
        ).insert(x),
{
    let o = out.push(x);
    assert forall|i: int| 0 <= i < o.len() implies {
        &&& !(#[trigger] satisfied_after(pre, o, i)).contains(t)
        &&& resolve(rel, satisfied_after(pre, o, i), Seq::empty(), t) == Ok::<usize, usize>(o[i])
    } by {
        assert(o.take(i) == out.take(i));
        if i < out.len() {
            assert(satisfied_after(pre, out, i).contains(t) == false);
        }
    }
    assert(o.take(o.len() as int) == o);
    assert(out.take(out.len() as int) == out);
    out.lemma_push_to_set_commute(x);
    assert(satisfied_after(pre, o, out.len() as int + 1) =~= satisfied_after(pre, out, out.len() as int).insert(x));
}

} // verus!
