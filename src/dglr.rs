//! A dependency graph over string names that computes the whole order at
//! once. Names are registered when first mentioned; the order of a name is
//! the walk towards it (see `model::traversal`), the name itself left out.
use vstd::prelude::*;

use crate::laws::{lemma_run_unique, lemma_traversal_done, lemma_traversal_failed};
use crate::model::{
    flag_set, is_run, lemma_resolve, lemma_run_push, relation_wf, run_done, satisfied_after, traversal,
    with_edge,
};
use crate::relation::DepRelation;

verus! {

/// What a named graph holds: the names by position and the positions each
/// name depends on.
pub struct NamedGraphView {
    pub names: Seq<Seq<char>>,
    pub deps: Seq<Seq<usize>>,
}

/// The position of `x` in `names`.
pub open spec fn name_index(names: Seq<Seq<char>>, x: Seq<char>) -> Option<usize>
    decreases names.len(),
{
    if names.len() == 0 {
        None
    } else {
        match name_index(names.drop_last(), x) {
            Some(i) => Some(i),
            None => if names.last() == x {
                Some((names.len() - 1) as usize)
            } else {
                None
            },
        }
    }
}

/// The position that `x` has once registered into `names`.
pub open spec fn name_position(names: Seq<Seq<char>>, x: Seq<char>) -> usize {
    match name_index(names, x) {
        Some(i) => i,
        None => names.len() as usize,
    }
}

/// What `name_index` returns.
pub proof fn lemma_name_index(names: Seq<Seq<char>>, x: Seq<char>)
    requires
        names.len() <= usize::MAX,
    ensures
        match name_index(names, x) {
            Some(i) => i < names.len() && names[i as int] == x,
            None => !names.contains(x),
        },
    decreases names.len(),
{
    if names.len() > 0 {
        let init = names.drop_last();
        lemma_name_index(init, x);
        if names.contains(x) {
            let j = choose|j: int| 0 <= j < names.len() && names[j] == x;
            if j < init.len() {
                assert(init[j] == x);
            }
        }
    }
}

impl NamedGraphView {
    /// Names are distinct, and the dependency lists are well formed, one per
    /// name.
    pub open spec fn wf(self) -> bool {
        &&& self.names.len() == self.deps.len()
        &&& relation_wf(self.deps)
        &&& self.names.no_duplicates()
    }

    /// The graph with `x` registered.
    pub open spec fn with_name(self, x: Seq<char>) -> NamedGraphView {
        if name_index(self.names, x) is Some {
            self
        } else {
            NamedGraphView { names: self.names.push(x), deps: self.deps.push(Seq::empty()) }
        }
    }

    /// The graph with `dep` registered and added to the dependencies of the
    /// name at position `a`.
    pub open spec fn with_edge_to(self, a: usize, dep: Seq<char>) -> NamedGraphView {
        let h = self.with_name(dep);
        NamedGraphView { names: h.names, deps: with_edge(h.deps, a, name_position(self.names, dep)) }
    }

    /// The graph with each of `deps`, in order, registered and added to the
    /// dependencies of the name at position `a`.
    pub open spec fn with_edges_from(self, a: usize, deps: Seq<Seq<char>>) -> NamedGraphView
        decreases deps.len(),
    {
        if deps.len() == 0 {
            self
        } else {
            self.with_edges_from(a, deps.drop_last()).with_edge_to(a, deps.last())
        }
    }

    /// The graph after one single registration of a dependency of `thing` for
    /// each of `deps`, in order (`thing` alone registered when `deps` is
    /// empty).
    pub open spec fn with_each_dependency(self, thing: Seq<char>, deps: Seq<Seq<char>>) -> NamedGraphView
        decreases deps.len(),
    {
        if deps.len() == 0 {
            self.with_name(thing)
        } else {
            self.with_each_dependency(thing, deps.drop_last()).with_dependencies(thing, seq![deps.last()])
        }
    }

    /// The graph with `thing` registered and each of `deps`, in order,
    /// registered and added to its dependencies.
    pub open spec fn with_dependencies(self, thing: Seq<char>, deps: Seq<Seq<char>>) -> NamedGraphView {
        self.with_name(thing).with_edges_from(name_position(self.names, thing), deps)
    }
}

/// Registering several dependencies of one name at once is registering them
/// one at a time.
pub proof fn lemma_batch_is_repeated(g: NamedGraphView, thing: Seq<char>, deps: Seq<Seq<char>>)
    requires
        g.names.len() + deps.len() < usize::MAX,
    ensures
        g.with_dependencies(thing, deps) == g.with_each_dependency(thing, deps),
        name_index(g.with_dependencies(thing, deps).names, thing) == Some(name_position(g.names, thing)),
        g.with_dependencies(thing, deps).names.len() <= g.names.len() + 1 + deps.len(),
    decreases deps.len(),
{
    let a = name_position(g.names, thing);
    let g1 = g.with_name(thing);
    lemma_name_index(g.names, thing);
    if name_index(g.names, thing) is None {
        assert(g1.names.drop_last() == g.names);
    }
    if deps.len() > 0 {
        let init = deps.drop_last();
        let d = deps.last();
        lemma_batch_is_repeated(g, thing, init);
        let big = g1.with_edges_from(a, init);
        assert(big.with_name(thing) == big);
        assert(seq![d].drop_last() == Seq::<Seq<char>>::empty());
        assert(big.with_name(thing).with_edges_from(a, Seq::<Seq<char>>::empty()) == big);
        if name_index(big.names, d) is None {
            assert(big.with_name(d).names.drop_last() == big.names);
        }
    }
}

/// Registering a name keeps a graph well formed.
proof fn lemma_with_name_wf(g: NamedGraphView, x: Seq<char>)
    requires
        g.wf(),
        g.names.len() < usize::MAX,
    ensures
        g.with_name(x).wf(),
        g.names.len() <= g.with_name(x).names.len() <= g.names.len() + 1,
        g.with_name(x).names.len() > name_position(g.names, x),
{
    lemma_name_index(g.names, x);
    if name_index(g.names, x) is None {
        let h = g.with_name(x);
        assert forall|a: int, k: int| 0 <= a < h.deps.len() && 0 <= k < h.deps[a].len() implies #[trigger] h.deps[a][k]
            < h.deps.len() by {
            assert(h.deps[a] == g.deps[a]);
        }
        assert forall|a: int| 0 <= a < h.deps.len() implies (#[trigger] h.deps[a]).no_duplicates() by {
            if a < g.deps.len() {
                assert(h.deps[a] == g.deps[a]);
            }
        }
    }
}

/// The views of a sequence of string slices.
pub open spec fn views_of(xs: Seq<&str>) -> Seq<Seq<char>> {
    xs.map_values(|s: &str| s@)
}

/// The dependency graph: names and, for each, the names it depends on.
pub struct DepGraph {
    // The names, each at the position it was registered at.
    names: Vec<String>,
    // For each name position, the positions it depends on.
    dependencies: DepRelation,
}

impl View for DepGraph {
    type V = NamedGraphView;

    closed spec fn view(&self) -> NamedGraphView {
        NamedGraphView { names: self.names@.map_values(|s: String| s@), deps: self.dependencies@ }
    }
}

impl DepGraph {
    /// The view is well formed.
    pub open spec fn wf(&self) -> bool {
        self@.wf()
    }

    /// An empty graph.
    pub fn new() -> (r: DepGraph)
        ensures
            r.wf(),
            r@ == (NamedGraphView { names: Seq::empty(), deps: Seq::empty() }),
    {
        let r = DepGraph { names: Vec::new(), dependencies: DepRelation::new() };
        assert(r@.names =~= Seq::<Seq<char>>::empty());
        r
    }

    /// The position of `name`, if it is registered.
    fn position(&self, name: &String) -> (r: Option<usize>)
        requires
            self.wf(),
        ensures
            r == name_index(self@.names, name@),
    {
        proof {
            lemma_name_index(self@.names, name@);
        }
        let mut i: usize = 0;
        while i < self.names.len()
            invariant
                self.wf(),
                i <= self@.names.len(),
                forall|j: int| 0 <= j < i ==> self@.names[j] != name@,
            decreases self@.names.len() - i,
        {
            if self.names[i] == *name {
                proof {
                    lemma_name_index(self@.names, name@);
                    assert(self@.names[i as int] == name@);
                }
                return Some(i);
            }
            i += 1;
        }
        None
    }

    /// Registers `name` unless it is registered, and returns its position.
    fn insert_name(&mut self, name: String) -> (r: usize)
        requires
            old(self).wf(),
            old(self)@.names.len() < usize::MAX,
        ensures
            final(self).wf(),
            final(self)@ == old(self)@.with_name(name@),
            r == name_position(old(self)@.names, name@),
    {
        proof {
            lemma_with_name_wf(self@, name@);
        }
        match self.position(&name) {
            Some(pos) => pos,
            None => {
                let pos = self.names.len();
                let ghost v = name@;
                self.names.push(name);
                self.dependencies.add_node();
                assert(self@.names =~= old(self)@.names.push(v));
                assert(self@ =~= old(self)@.with_name(v));
                pos
            },
        }
    }

    /// Registers `dep` and adds it to the dependencies of the name at `a`.
    fn link(&mut self, a: usize, dep: &str)
        requires
            old(self).wf(),
            old(self)@.names.len() < usize::MAX,
            a < old(self)@.names.len(),
        ensures
            final(self).wf(),
            final(self)@ == old(self)@.with_edge_to(a, dep@),
            old(self)@.names.len() <= final(self)@.names.len() <= old(self)@.names.len() + 1,
    {
        let ghost g0 = self@;
        proof {
            lemma_with_name_wf(g0, dep@);
        }
        let dep_pos = self.insert_name(dep.to_owned());
        self.dependencies.add_edge(a, dep_pos);
        assert(self@ =~= g0.with_edge_to(a, dep@));
    }

    /// Records that `thing` depends on `depends_on`, registering either if
    /// needed. A repeated dependency changes nothing.
    pub fn register_dependency(&mut self, thing: &str, depends_on: &str)
        requires
            old(self).wf(),
            old(self)@.names.len() + 1 < usize::MAX,
        ensures
            final(self).wf(),
            final(self)@ == old(self)@.with_dependencies(thing@, seq![depends_on@]),
    {
        let ghost g0 = self@;
        proof {
            lemma_with_name_wf(g0, thing@);
        }
        let pos = self.insert_name(thing.to_owned());
        let ghost g1 = self@;
        self.link(pos, depends_on);
        assert(seq![depends_on@].drop_last() == Seq::<Seq<char>>::empty());
        assert(g1.with_edges_from(pos, Seq::empty()) == g1);
    }

    /// Records that `thing` depends on each of `depends_on`, in order,
    /// registering any name not yet registered.
    pub fn register_dependencies(&mut self, thing: &str, depends_on: &[&str])
        requires
            old(self).wf(),
            old(self)@.names.len() + depends_on@.len() + 1 < usize::MAX,
        ensures
            final(self).wf(),
            final(self)@ == old(self)@.with_dependencies(thing@, views_of(depends_on@)),
    {
        let ghost all = views_of(depends_on@);
        proof {
            lemma_with_name_wf(self@, thing@);
        }
        let pos = self.insert_name(thing.to_owned());
        let ghost g1 = self@;
        let mut k: usize = 0;
        while k < depends_on.len()
            invariant
                self.wf(),
                k <= depends_on@.len(),
                all == views_of(depends_on@),
                self@ == g1.with_edges_from(pos, all.take(k as int)),
                g1.names.len() <= self@.names.len() <= g1.names.len() + k,
                g1.names.len() + depends_on@.len() < usize::MAX,
                pos < g1.names.len(),
            decreases depends_on@.len() - k,
        {
            let dep: &str = depends_on[k];
            assert(all.take(k + 1).drop_last() == all.take(k as int));
            assert(all.take(k + 1).last() == dep@);
            self.link(pos, dep);
            k += 1;
        }
        assert(all.take(all.len() as int) == all);
    }

    /// The same as `register_dependency`.
    pub fn add_dependency(&mut self, thing: &str, depends_on: &str)
        requires
            old(self).wf(),
            old(self)@.names.len() + 1 < usize::MAX,
        ensures
            final(self).wf(),
            final(self)@ == old(self)@.with_dependencies(thing@, seq![depends_on@]),
    {
        self.register_dependency(thing, depends_on);
    }

    /// The same as `register_dependencies`, with the dependencies in a `Vec`.
    pub fn add_dependencies(&mut self, thing: &str, depends_on: Vec<&str>)
        requires
            old(self).wf(),
            old(self)@.names.len() + depends_on@.len() + 1 < usize::MAX,
        ensures
            final(self).wf(),
            final(self)@ == old(self)@.with_dependencies(thing@, views_of(depends_on@)),
    {
        self.register_dependencies(thing, depends_on.as_slice());
    }

    /// The names that `thing` depends on, directly or not, each after all the
    /// names it depends on; `thing` itself is left out. `None` when a cycle is
    /// met on the way; an empty order when `thing` was never mentioned.
    pub fn get_ordered_dependencies_of(&self, thing: &str) -> (r: Option<Vec<String>>)
        requires
            self.wf(),
        ensures
            match name_index(self@.names, thing@) {
                None => (r matches Some(v) && v@.len() == 0),
                Some(t) => match traversal(self@.deps, Set::empty(), t) {
                    None => r is None,
                    Some(order) => (r matches Some(v) && v@.len() + 1 == order.len() && forall|i: int|
                        0 <= i < v@.len() ==> #[trigger] v@[i]@ == self@.names[order[i] as int]),
                },
            },
    {
        let name = thing.to_owned();
        let t = match self.position(&name) {
            None => return Some(Vec::new()),
            Some(t) => t,
        };
        proof {
            lemma_name_index(self@.names, thing@);
        }
        let ghost rel = self@.deps;
        let ghost none = Set::<usize>::empty();
        let n = self.dependencies.len();
        let mut flags: Vec<bool> = Vec::new();
        while flags.len() < n
            invariant
                flags@.len() <= n,
                forall|i: int| 0 <= i < flags@.len() ==> !flags@[i],
            decreases n - flags@.len(),
        {
            flags.push(false);
        }
        let ghost mut out: Seq<usize> = Seq::empty();
        let mut result: Vec<String> = Vec::new();
        assert(out.take(0) == out);
        assert(flag_set(flags@) =~= satisfied_after(none, out, 0));
        loop
            invariant
                self.wf(),
                rel == self@.deps,
                none == Set::<usize>::empty(),
                name_index(self@.names, thing@) == Some(t),
                n == rel.len(),
                t < n,
                flags@.len() == n,
                is_run(rel, none, t, out),
                flag_set(flags@) == satisfied_after(none, out, out.len() as int),
                !satisfied_after(none, out, out.len() as int).contains(t),
                result@.len() == out.len(),
                forall|i: int| 0 <= i < out.len() ==> #[trigger] result@[i]@ == self@.names[out[i] as int],
            decreases n - out.len(),
        {
            proof {
                lemma_run_unique(rel, none, t, out);
            }
            let ghost sat = satisfied_after(none, out, out.len() as int);
            proof {
                lemma_resolve(rel, sat, Seq::empty(), t);
            }
            match self.dependencies.get_next_dependency(&flags, t) {
                Err(_) => {
                    proof {
                        lemma_traversal_failed(rel, none, t, out);
                    }
                    return None;
                },
                Ok(x) => {
                    proof {
                        lemma_run_push(rel, none, t, out, x);
                    }
                    flags.set(x, true);
                    let ghost before = out;
                    proof {
                        out = out.push(x);
                    }
                    assert(flag_set(flags@) =~= satisfied_after(none, out, out.len() as int));
                    if x == t {
                        proof {
                            lemma_traversal_done(rel, none, t, out);
                            assert(out[before.len() as int] == t);
                        }
                        return Some(result);
                    }
                    result.push(self.names[x].clone());
                    proof {
                        lemma_run_unique(rel, none, t, out);
                        assert(result@[before.len() as int]@ == self@.names[x as int]);
                    }
                },
            }
        }
    }
}

} // verus!
