//! The graph store, generic over the caller's node type, and the cursor that
//! walks the dependencies of one target.
//!
//! Nodes are kept in registration order and addressed by position, so the
//! node type needs only `==`. Two nodes are the same entity when the node
//! type's `==` says so: a node is found at the first position whose node
//! equals it. The operations that compare nodes ask that the node type's `==`
//! behave as its specification says (`T::obeys_eq_spec()`), as it does for the
//! integer types.
use vstd::prelude::*;
use vstd::std_specs::cmp::PartialEqSpec;

use crate::error::SolventError;
use crate::model::{
    flag_set, is_run, lemma_resolve, lemma_run_push, relation_wf, resolve, run_done, run_failed,
    satisfied_after, with_edge,
};
use crate::relation::DepRelation;

verus! {

/// What a graph holds: its nodes by position, the positions each node depends
/// on, and the positions marked satisfied.
pub struct GraphView<T> {
    pub nodes: Seq<T>,
    pub deps: Seq<Seq<usize>>,
    pub satisfied: Set<usize>,
}

/// The position of the first node of `nodes` equal to `x`.
pub open spec fn index_in<T: PartialEq>(nodes: Seq<T>, x: T) -> Option<usize>
    decreases nodes.len(),
{
    if nodes.len() == 0 {
        None
    } else {
        match index_in(nodes.drop_last(), x) {
            Some(i) => Some(i),
            None => if nodes.last().eq_spec(&x) {
                Some((nodes.len() - 1) as usize)
            } else {
                None
            },
        }
    }
}

/// The position that `x` has once registered into `nodes`: that of the first
/// equal node, or else the next free one.
pub open spec fn node_position<T: PartialEq>(nodes: Seq<T>, x: T) -> usize {
    match index_in(nodes, x) {
        Some(i) => i,
        None => nodes.len() as usize,
    }
}

/// What `index_in` returns.
pub proof fn lemma_index_in<T: PartialEq>(nodes: Seq<T>, x: T)
    requires
        nodes.len() <= usize::MAX,
    ensures
        match index_in(nodes, x) {
            Some(i) => {
                &&& i < nodes.len()
                &&& nodes[i as int].eq_spec(&x)
                &&& forall|j: int| 0 <= j < i ==> !(#[trigger] nodes[j]).eq_spec(&x)
            },
            None => forall|j: int| 0 <= j < nodes.len() ==> !(#[trigger] nodes[j]).eq_spec(&x),
        },
    decreases nodes.len(),
{
    if nodes.len() > 0 {
        let init = nodes.drop_last();
        lemma_index_in(init, x);
        assert forall|j: int| 0 <= j < init.len() implies #[trigger] nodes[j] == init[j] by {}
    }
}

impl<T: PartialEq> GraphView<T> {
    /// No two nodes are equal, every dependency list is well formed and
    /// belongs to a node, and every satisfied position names a node.
    pub open spec fn wf(self) -> bool {
        &&& self.nodes.len() == self.deps.len()
        &&& relation_wf(self.deps)
        &&& forall|i: int, j: int|
            #![trigger self.nodes[i], self.nodes[j]]
            0 <= i < j < self.nodes.len() ==> !self.nodes[i].eq_spec(&self.nodes[j])
        &&& forall|p: usize| #[trigger] self.satisfied.contains(p) ==> p < self.nodes.len()
    }

    /// `x` is registered.
    pub open spec fn has_node(self, x: T) -> bool {
        index_in(self.nodes, x) is Some
    }

    /// The graph with `x` registered: unchanged if an equal node is there,
    /// else `x` is added at the end, with no dependencies.
    pub open spec fn with_node(self, x: T) -> GraphView<T> {
        if self.has_node(x) {
            self
        } else {
            GraphView {
                nodes: self.nodes.push(x),
                deps: self.deps.push(Seq::empty()),
                satisfied: self.satisfied,
            }
        }
    }

    /// The graph with each of `xs` registered, in order.
    pub open spec fn with_nodes(self, xs: Seq<T>) -> GraphView<T>
        decreases xs.len(),
    {
        if xs.len() == 0 {
            self
        } else {
            self.with_nodes(xs.drop_last()).with_node(xs.last())
        }
    }

    /// The graph with `dep` registered and added to the dependencies of the
    /// node at position `a`.
    pub open spec fn with_edge_to(self, a: usize, dep: T) -> GraphView<T> {
        let h = self.with_node(dep);
        GraphView {
            nodes: h.nodes,
            deps: with_edge(h.deps, a, node_position(self.nodes, dep)),
            satisfied: h.satisfied,
        }
    }

    /// The graph with each of `deps`, in order, registered and added to the
    /// dependencies of the node at position `a`.
    pub open spec fn with_edges_from(self, a: usize, deps: Seq<T>) -> GraphView<T>
        decreases deps.len(),
    {
        if deps.len() == 0 {
            self
        } else {
            self.with_edges_from(a, deps.drop_last()).with_edge_to(a, deps.last())
        }
    }

    /// The graph with `node`, then `dep`, registered, and `dep` added to the
    /// dependencies of `node`.
    pub open spec fn with_dependency(self, node: T, dep: T) -> GraphView<T> {
        self.with_node(node).with_edge_to(node_position(self.nodes, node), dep)
    }

    /// The graph with `node` registered, then each of `deps`, in order,
    /// registered and added to the dependencies of `node`.
    pub open spec fn with_dependencies(self, node: T, deps: Seq<T>) -> GraphView<T> {
        self.with_node(node).with_edges_from(node_position(self.nodes, node), deps)
    }

    /// The graph after one `with_dependency` of `node` for each of `deps`,
    /// in order (`node` alone registered when `deps` is empty).
    pub open spec fn with_each_dependency(self, node: T, deps: Seq<T>) -> GraphView<T>
        decreases deps.len(),
    {
        if deps.len() == 0 {
            self.with_node(node)
        } else {
            self.with_each_dependency(node, deps.drop_last()).with_dependency(node, deps.last())
        }
    }

    /// Each of `xs` is registered.
    pub open spec fn has_nodes(self, xs: Seq<T>) -> bool {
        forall|j: int| 0 <= j < xs.len() ==> self.has_node(#[trigger] xs[j])
    }

    /// The positions of those of `xs` that are registered.
    pub open spec fn positions_of(self, xs: Seq<T>) -> Set<usize> {
        Set::new(|p: usize| exists|j: int| 0 <= j < xs.len() && index_in(self.nodes, #[trigger] xs[j]) == Some(p))
    }

    /// The graph with the nodes `xs` added to the satisfied set.
    pub open spec fn marked(self, xs: Seq<T>) -> GraphView<T> {
        GraphView {
            nodes: self.nodes,
            deps: self.deps,
            satisfied: self.satisfied.union(self.positions_of(xs)),
        }
    }
}

/// Registering a node keeps a graph well formed.
proof fn lemma_with_node_wf<T: PartialEq>(g: GraphView<T>, x: T)
    requires
        g.wf(),
        g.nodes.len() < usize::MAX,
    ensures
        g.with_node(x).wf(),
        g.with_node(x).nodes.len() <= g.nodes.len() + 1,
        g.with_node(x).nodes.len() > node_position(g.nodes, x),
        g.with_node(x).satisfied == g.satisfied,
{
    lemma_index_in(g.nodes, x);
    if !g.has_node(x) {
        let h = g.with_node(x);
        assert forall|i: int, j: int|
            #![trigger h.nodes[i], h.nodes[j]]
            0 <= i < j < h.nodes.len() implies !h.nodes[i].eq_spec(&h.nodes[j]) by {
            if j < g.nodes.len() {
                assert(h.nodes[i] == g.nodes[i] && h.nodes[j] == g.nodes[j]);
            } else {
                assert(h.nodes[i] == g.nodes[i]);
            }
        }
        assert forall|a: int, k: int| 0 <= a < h.deps.len() && 0 <= k < h.deps[a].len() implies #[trigger] h.deps[a][k]
            < h.deps.len() by {
            assert(h.deps[a] == g.deps[a]);
        }
        assert forall|a: int| 0 <= a < h.deps.len() implies (#[trigger] h.deps[a]).no_duplicates() by {
            if a < g.deps.len() {
                assert(h.deps[a] == g.deps[a]);
            }
        }
    }
}

/// `list` holds `p`.
fn contains_position(list: &Vec<usize>, p: usize) -> (r: bool)
    ensures
        r == list@.contains(p),
{
    let mut j: usize = 0;
    while j < list.len()
        invariant
            j <= list@.len(),
            forall|m: int| 0 <= m < j ==> list@[m] != p,
        decreases list@.len() - j,
    {
        if list[j] == p {
            return true;
        }
        j += 1;
    }
    false
}

/// The dependency graph: the nodes, the dependencies between them, and the
/// nodes already satisfied.
pub struct DepGraph<T> {
    // The nodes, each at the position it was registered at.
    nodes: Vec<T>,
    // For each node position, the positions it depends on.
    dependencies: DepRelation,
    // The satisfied positions, in the order they were marked.
    satisfied: Vec<usize>,
}

impl<T> View for DepGraph<T> {
    type V = GraphView<T>;

    closed spec fn view(&self) -> GraphView<T> {
        GraphView { nodes: self.nodes@, deps: self.dependencies@, satisfied: self.satisfied@.to_set() }
    }
}

impl<T: PartialEq> DepGraph<T> {
    /// The view is well formed and the satisfied positions are listed once
    /// each.
    pub closed spec fn wf(&self) -> bool {
        &&& self@.wf()
        &&& self.satisfied@.no_duplicates()
    }

    /// An empty graph.
    pub fn new() -> (r: DepGraph<T>)
        ensures
            r.wf(),
            r@ == (GraphView::<T> { nodes: Seq::empty(), deps: Seq::empty(), satisfied: Set::empty() }),
    {
        let r = DepGraph { nodes: Vec::new(), dependencies: DepRelation::new(), satisfied: Vec::new() };
        assert(r.satisfied@.to_set() =~= Set::empty());
        r
    }

    /// The position of `node`, if it is registered.
    pub fn position(&self, node: &T) -> (r: Option<usize>)
        requires
            self.wf(),
            T::obeys_eq_spec(),
        ensures
            r == index_in(self@.nodes, *node),
    {
        proof {
            lemma_index_in(self@.nodes, *node);
        }
        let mut i: usize = 0;
        while i < self.nodes.len()
            invariant
                self.wf(),
                T::obeys_eq_spec(),
                i <= self@.nodes.len(),
                forall|j: int| 0 <= j < i ==> !(#[trigger] self@.nodes[j]).eq_spec(node),
            decreases self@.nodes.len() - i,
        {
            if self.nodes[i] == *node {
                proof {
                    lemma_index_in(self@.nodes, *node);
                }
                return Some(i);
            }
            i += 1;
        }
        None
    }

    /// Registers `node` unless an equal node is registered, and returns its
    /// position.
    fn insert_node(&mut self, node: T) -> (r: usize)
        requires
            old(self).wf(),
            old(self)@.nodes.len() < usize::MAX,
            T::obeys_eq_spec(),
        ensures
            final(self).wf(),
            final(self)@ == old(self)@.with_node(node),
            r == node_position(old(self)@.nodes, node),
            final(self).satisfied@ == old(self).satisfied@,
    {
        proof {
            lemma_with_node_wf(self@, node);
        }
        match self.position(&node) {
            Some(pos) => pos,
            None => {
                let pos = self.nodes.len();
                self.nodes.push(node);
                self.dependencies.add_node();
                assert(self@ =~= old(self)@.with_node(node));
                pos
            },
        }
    }

    /// Registers each of `nodes`, in order, skipping those already there.
    pub fn register_nodes(&mut self, nodes: Vec<T>)
        requires
            old(self).wf(),
            old(self)@.nodes.len() + nodes@.len() < usize::MAX,
            T::obeys_eq_spec(),
        ensures
            final(self).wf(),
            final(self)@ == old(self)@.with_nodes(nodes@),
    {
        let ghost all = nodes@;
        for node in it: nodes
            invariant
                self.wf(),
                T::obeys_eq_spec(),
                it.seq() == all,
                self@ == old(self)@.with_nodes(all.take(it.index() as int)),
                self@.nodes.len() <= old(self)@.nodes.len() + it.index(),
                old(self)@.nodes.len() + all.len() < usize::MAX,
        {
            let ghost k = it.index() as int;
            assert(all.take(k + 1).drop_last() == all.take(k));
            proof {
                lemma_with_node_wf(self@, node);
            }
            self.insert_node(node);
        }
        assert(all.take(all.len() as int) == all);
    }

    /// Registers `node` unless an equal node is registered.
    pub fn register_node(&mut self, node: T)
        requires
            old(self).wf(),
            old(self)@.nodes.len() < usize::MAX,
            T::obeys_eq_spec(),
        ensures
            final(self).wf(),
            final(self)@ == old(self)@.with_node(node),
    {
        self.insert_node(node);
    }

    /// Registers `dep` and adds it to the dependencies of the node at `a`.
    fn link(&mut self, a: usize, dep: T)
        requires
            old(self).wf(),
            old(self)@.nodes.len() < usize::MAX,
            a < old(self)@.nodes.len(),
            T::obeys_eq_spec(),
        ensures
            final(self).wf(),
            final(self)@ == old(self)@.with_edge_to(a, dep),
            old(self)@.nodes.len() <= final(self)@.nodes.len() <= old(self)@.nodes.len() + 1,
    {
        let ghost g0 = self@;
        proof {
            lemma_with_node_wf(g0, dep);
        }
        let dep_pos = self.insert_node(dep);
        self.dependencies.add_edge(a, dep_pos);
        assert(self@ =~= g0.with_edge_to(a, dep));
    }

    /// Records that `node` depends on `depends_on`, registering either if
    /// needed. A repeated dependency changes nothing.
    pub fn register_dependency(&mut self, node: T, depends_on: T)
        requires
            old(self).wf(),
            old(self)@.nodes.len() + 1 < usize::MAX,
            T::obeys_eq_spec(),
        ensures
            final(self).wf(),
            final(self)@ == old(self)@.with_dependency(node, depends_on),
    {
        proof {
            lemma_with_node_wf(self@, node);
        }
        let node_pos = self.insert_node(node);
        self.link(node_pos, depends_on);
    }

    /// Records that `node` depends on each of `depends_on`, registering any
    /// node not yet registered: `node` first, then each dependency in order.
    pub fn register_dependencies(&mut self, node: T, depends_on: Vec<T>)
        requires
            old(self).wf(),
            old(self)@.nodes.len() + depends_on@.len() + 1 < usize::MAX,
            T::obeys_eq_spec(),
        ensures
            final(self).wf(),
            final(self)@ == old(self)@.with_dependencies(node, depends_on@),
    {
        let ghost all = depends_on@;
        proof {
            lemma_with_node_wf(self@, node);
        }
        let node_pos = self.insert_node(node);
        let ghost g1 = self@;
        for dep in it: depends_on
            invariant
                self.wf(),
                T::obeys_eq_spec(),
                it.seq() == all,
                self@ == g1.with_edges_from(node_pos, all.take(it.index() as int)),
                g1.nodes.len() <= self@.nodes.len() <= g1.nodes.len() + it.index(),
                g1.nodes.len() + all.len() < usize::MAX,
                node_pos < g1.nodes.len(),
        {
            let ghost k = it.index() as int;
            assert(all.take(k + 1).drop_last() == all.take(k));
            assert(all.take(k + 1).last() == dep);
            self.link(node_pos, dep);
        }
        assert(all.take(all.len() as int) == all);
    }

    /// Marks each of `nodes` satisfied. Fails with `NoSuchNode`, and changes
    /// nothing, if any of them is not registered.
    pub fn mark_as_satisfied(&mut self, nodes: &[T]) -> (r: Result<(), SolventError>)
        requires
            old(self).wf(),
            T::obeys_eq_spec(),
        ensures
            final(self).wf(),
            old(self)@.has_nodes(nodes@) ==> r == Ok::<(), SolventError>(()) && final(self)@ == old(
                self,
            )@.marked(nodes@),
            !old(self)@.has_nodes(nodes@) ==> r == Err::<(), SolventError>(SolventError::NoSuchNode)
                && final(self)@ == old(self)@,
    {
        let mut positions: Vec<usize> = Vec::new();
        let mut k: usize = 0;
        while k < nodes.len()
            invariant
                self.wf(),
                T::obeys_eq_spec(),
                k <= nodes@.len(),
                positions@.len() == k,
                forall|j: int| 0 <= j < k ==> index_in(self@.nodes, #[trigger] nodes@[j]) == Some(positions@[j]),
                forall|j: int| 0 <= j < k ==> #[trigger] positions@[j] < self@.nodes.len(),
            decreases nodes@.len() - k,
        {
            match self.position(&nodes[k]) {
                None => {
                    return Err(SolventError::NoSuchNode);
                },
                Some(p) => {
                    proof {
                        lemma_index_in(self@.nodes, nodes@[k as int]);
                    }
                    positions.push(p);
                },
            }
            k += 1;
        }
        let ghost g0 = self@;
        let mut i: usize = 0;
        while i < positions.len()
            invariant
                i <= positions@.len(),
                positions@.len() == nodes@.len(),
                forall|j: int| 0 <= j < positions@.len() ==> #[trigger] positions@[j] < self@.nodes.len(),
                self.wf(),
                self@.nodes == g0.nodes,
                self@.deps == g0.deps,
                self@.satisfied == g0.satisfied.union(positions@.take(i as int).to_set()),
            decreases positions@.len() - i,
        {
            let p = positions[i];
            let ghost before = self.satisfied@;
            proof {
                positions@.take(i as int).lemma_push_to_set_commute(p);
                assert(positions@.take(i as int + 1) == positions@.take(i as int).push(p));
            }
            if !contains_position(&self.satisfied, p) {
                self.satisfied.push(p);
                proof {
                    before.lemma_push_to_set_commute(p);
                }
            } else {
                assert(before.to_set().contains(p));
            }
            assert(self.satisfied@.to_set() =~= g0.satisfied.union(positions@.take(i as int + 1).to_set()));
            i += 1;
        }
        assert(positions@.take(positions@.len() as int) == positions@);
        assert forall|p: usize| positions@.to_set().contains(p) <==> g0.positions_of(nodes@).contains(p) by {
            if positions@.contains(p) {
                let j = choose|j: int| 0 <= j < positions@.len() && positions@[j] == p;
                assert(index_in(g0.nodes, nodes@[j]) == Some(p));
            }
            if g0.positions_of(nodes@).contains(p) {
                let j = choose|j: int| 0 <= j < nodes@.len() && index_in(g0.nodes, #[trigger] nodes@[j]) == Some(p);
                assert(positions@[j] == p);
            }
        }
        assert(positions@.to_set() =~= g0.positions_of(nodes@));
        assert(self@ =~= g0.marked(nodes@));
        Ok(())
    }

    /// A cursor over the dependencies of `target`, `target` last. Fails with
    /// `NoSuchNode` if `target` is not registered. The cursor starts from the
    /// nodes satisfied now.
    pub fn dependencies_of<'a>(&'a self, target: &T) -> (r: Result<DepGraphIterator<'a, T>, SolventError>)
        requires
            self.wf(),
            T::obeys_eq_spec(),
        ensures
            match index_in(self@.nodes, *target) {
                None => r == Err::<DepGraphIterator<'a, T>, SolventError>(SolventError::NoSuchNode),
                Some(t) => match r {
                    Ok(it) => {
                        &&& it.wf()
                        &&& it.graph() == *self
                        &&& it.target() == t
                        &&& it.pre() == self@.satisfied
                        &&& it.yielded() == Seq::<usize>::empty()
                        &&& !it.halted()
                        &&& it.cycle_position() is None
                    },
                    Err(_) => false,
                },
            },
    {
        let pos = match self.position(target) {
            None => return Err(SolventError::NoSuchNode),
            Some(p) => p,
        };
        proof {
            lemma_index_in(self@.nodes, *target);
        }
        let n = self.nodes.len();
        let mut flags: Vec<bool> = Vec::new();
        while flags.len() < n
            invariant
                flags@.len() <= n,
                forall|i: int| 0 <= i < flags@.len() ==> !flags@[i],
            decreases n - flags@.len(),
        {
            flags.push(false);
        }
        let mut k: usize = 0;
        while k < self.satisfied.len()
            invariant
                self.wf(),
                n == self@.nodes.len(),
                flags@.len() == n,
                k <= self.satisfied@.len(),
                forall|i: int| 0 <= i < n ==> flags@[i] == self.satisfied@.take(k as int).contains(i as usize),
            decreases self.satisfied@.len() - k,
        {
            let p = self.satisfied[k];
            assert(self@.satisfied.contains(p));
            flags.set(p, true);
            proof {
                let before = self.satisfied@.take(k as int);
                let after = self.satisfied@.take(k as int + 1);
                assert(after == before.push(p));
                before.lemma_push_to_set_commute(p);
                assert forall|i: int| 0 <= i < n implies flags@[i] == after.contains(i as usize) by {
                    assert(after.to_set().contains(i as usize) == after.contains(i as usize));
                    assert(before.to_set().contains(i as usize) == before.contains(i as usize));
                }
            }
            k += 1;
        }
        assert(self.satisfied@.take(self.satisfied@.len() as int) == self.satisfied@);
        let it = DepGraphIterator {
            depgraph: self,
            target: pos,
            satisfied: flags,
            halted: false,
            cycle_at: None,
            pre: Ghost(self@.satisfied),
            yielded: Ghost(Seq::empty()),
        };
        assert(Seq::<usize>::empty().take(0) == Seq::<usize>::empty());
        assert(flag_set(it.satisfied@) =~= it.satisfied_now());
        Ok(it)
    }

    /// The node at position `pos`.
    pub fn node_at(&self, pos: usize) -> (r: &T)
        requires
            pos < self@.nodes.len(),
        ensures
            *r == self@.nodes[pos as int],
    {
        &self.nodes[pos]
    }

    /// The positions that the node at `pos` depends on, in registration
    /// order; `None` if no node is at `pos`.
    pub fn dependencies_at(&self, pos: usize) -> (r: Option<&Vec<usize>>)
        requires
            self.wf(),
        ensures
            pos < self@.nodes.len() ==> (r matches Some(l) && l@ == self@.deps[pos as int]),
            pos >= self@.nodes.len() ==> r is None,
    {
        if pos < self.dependencies.len() {
            Some(self.dependencies.dependencies_at(pos))
        } else {
            None
        }
    }

    /// The satisfied positions, each once, in the order they were marked.
    pub fn satisfied_positions(&self) -> (r: &Vec<usize>)
        requires
            self.wf(),
        ensures
            r@.to_set() == self@.satisfied,
            r@.no_duplicates(),
    {
        &self.satisfied
    }
}

/// A walk over the dependencies of one target. Each call of `next` yields the
/// next node whose dependencies are all satisfied, the target last, or a
/// cycle error, after which the walk is over.
pub struct DepGraphIterator<'a, T> {
    depgraph: &'a DepGraph<T>,
    // The target's position.
    target: usize,
    // For each position, whether it counts as satisfied in this walk.
    satisfied: Vec<bool>,
    // Set once the walk is over.
    halted: bool,
    // The position at which a cycle closed, once one has.
    cycle_at: Option<usize>,
    // The positions satisfied when the walk began.
    pre: Ghost<Set<usize>>,
    // The positions yielded so far, in order.
    yielded: Ghost<Seq<usize>>,
}

impl<'a, T: PartialEq> DepGraphIterator<'a, T> {
    /// The graph walked.
    pub closed spec fn graph(&self) -> DepGraph<T> {
        *self.depgraph
    }

    /// The target's position.
    pub closed spec fn target(&self) -> usize {
        self.target
    }

    /// The positions satisfied when the walk began.
    pub closed spec fn pre(&self) -> Set<usize> {
        self.pre@
    }

    /// The positions yielded so far, in order.
    pub closed spec fn yielded(&self) -> Seq<usize> {
        self.yielded@
    }

    /// The walk is over.
    pub closed spec fn halted(&self) -> bool {
        self.halted
    }

    /// The position at which a cycle closed, once one has.
    pub closed spec fn cycle_position(&self) -> Option<usize> {
        self.cycle_at
    }

    /// The positions that count as satisfied now.
    pub open spec fn satisfied_now(&self) -> Set<usize> {
        satisfied_after(self.pre(), self.yielded(), self.yielded().len() as int)
    }

    /// The walk's flags agree with what counts as satisfied now.
    pub closed spec fn flags_agree(&self) -> bool {
        &&& self.satisfied@.len() == self.depgraph@.nodes.len()
        &&& flag_set(self.satisfied@) == self.satisfied_now()
    }

    /// What was yielded is a run towards the target; the walk is over only
    /// once the target is satisfied or a cycle was met.
    pub open spec fn wf(&self) -> bool {
        let rel = self.graph()@.deps;
        &&& self.graph().wf()
        &&& self.target() < self.graph()@.nodes.len()
        &&& is_run(rel, self.pre(), self.target(), self.yielded())
        &&& self.halted() ==> run_done(self.pre(), self.target(), self.yielded())
            || self.cycle_position() is Some
        &&& self.cycle_position() matches Some(c) ==> {
            &&& self.halted()
            &&& c < self.graph()@.nodes.len()
            &&& run_failed(rel, self.pre(), self.target(), self.yielded())
            &&& resolve(rel, self.satisfied_now(), Seq::empty(), self.target()) == Err::<usize, usize>(c)
        }
        &&& self.flags_agree()
    }

    /// The next node of the walk: `None` once the walk is over, else the
    /// result of resolving the target against what is satisfied so far. A
    /// node yielded counts as satisfied from then on; a cycle ends the walk.
    pub fn next(&mut self) -> (r: Option<Result<&'a T, SolventError>>)
        requires
            old(self).wf(),
        ensures
            final(self).wf(),
            final(self).graph() == old(self).graph(),
            final(self).target() == old(self).target(),
            final(self).pre() == old(self).pre(),
            old(self).halted() ==> {
                &&& r is None
                &&& final(self).halted()
                &&& final(self).yielded() == old(self).yielded()
                &&& final(self).cycle_position() == old(self).cycle_position()
            },
            !old(self).halted() && run_done(old(self).pre(), old(self).target(), old(self).yielded())
                ==> {
                &&& r is None
                &&& final(self).halted()
                &&& final(self).yielded() == old(self).yielded()
                &&& final(self).cycle_position() is None
            },
            !old(self).halted() && !run_done(old(self).pre(), old(self).target(), old(self).yielded())
                ==> match resolve(
                old(self).graph()@.deps,
                old(self).satisfied_now(),
                Seq::empty(),
                old(self).target(),
            ) {
                Ok(x) => {
                    &&& r == Some(Ok::<&T, SolventError>(&old(self).graph()@.nodes[x as int]))
                    &&& !final(self).halted()
                    &&& final(self).yielded() == old(self).yielded().push(x)
                    &&& final(self).cycle_position() is None
                },
                Err(c) => {
                    &&& r == Some(Err::<&T, SolventError>(SolventError::CycleDetected))
                    &&& final(self).halted()
                    &&& final(self).yielded() == old(self).yielded()
                    &&& final(self).cycle_position() == Some(c)
                },
            },
    {
        if self.halted {
            return None;
        }
        let npos = self.target;
        if self.satisfied[npos] {
            assert(flag_set(self.satisfied@).contains(npos));
            self.halted = true;
            return None;
        }
        assert(!flag_set(self.satisfied@).contains(npos));
        let ghost rel = self.depgraph@.deps;
        let ghost sat = self.satisfied_now();
        proof {
            lemma_resolve(rel, sat, Seq::empty(), npos);
        }
        let g: &'a DepGraph<T> = self.depgraph;
        match g.dependencies.get_next_dependency(&self.satisfied, npos) {
            Err(c) => {
                self.halted = true;
                self.cycle_at = Some(c);
                Some(Err(SolventError::CycleDetected))
            },
            Ok(x) => {
                proof {
                    lemma_run_push(rel, self.pre@, npos, self.yielded@, x);
                }
                self.satisfied.set(x, true);
                self.yielded = Ghost(self.yielded@.push(x));
                assert(flag_set(self.satisfied@) =~= self.satisfied_now());
                Some(Ok(&g.nodes[x]))
            },
        }
    }

    /// The node at which a cycle closed, once one has.
    pub fn cycle_node(&self) -> (r: Option<&'a T>)
        requires
            self.wf(),
        ensures
            match self.cycle_position() {
                None => r is None,
                Some(c) => r == Some(&self.graph()@.nodes[c as int]),
            },
    {
        let g: &'a DepGraph<T> = self.depgraph;
        match self.cycle_at {
            None => None,
            Some(c) => Some(&g.nodes[c]),
        }
    }
}

} // verus!
