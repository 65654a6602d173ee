//! The dependency relation over node positions, and the resolution step that
//! walks it.
use vstd::prelude::*;

use crate::model::{first_unsatisfied, flag_set, lemma_distinct_nodes_bounded, lemma_first_unsatisfied, relation_wf, resolve, with_edge};

verus! {

/// For each node position, the positions it depends on, in registration order
/// and without repeats.
pub struct DepRelation {
    lists: Vec<Vec<usize>>,
}

impl View for DepRelation {
    type V = Seq<Seq<usize>>;

    closed spec fn view(&self) -> Seq<Seq<usize>> {
        self.lists@.map_values(|l: Vec<usize>| l@)
    }
}

/// The first entry of `list` whose flag in `satisfied` is down.
fn first_unsatisfied_in(list: &Vec<usize>, satisfied: &Vec<bool>) -> (r: Option<usize>)
    requires
        forall|j: int| 0 <= j < list@.len() ==> #[trigger] list@[j] < satisfied@.len(),
    ensures
        r == first_unsatisfied(list@, flag_set(satisfied@), 0),
{
    let mut k: usize = 0;
    while k < list.len()
        invariant
            k <= list@.len(),
            forall|j: int| 0 <= j < list@.len() ==> #[trigger] list@[j] < satisfied@.len(),
            first_unsatisfied(list@, flag_set(satisfied@), 0) == first_unsatisfied(
                list@,
                flag_set(satisfied@),
                k as int,
            ),
        decreases list@.len() - k,
    {
        let d = list[k];
        if !satisfied[d] {
            return Some(d);
        }
        k += 1;
    }
    None
}

impl DepRelation {
    /// Well-formed: see `relation_wf`.
    pub open spec fn wf(&self) -> bool {
        relation_wf(self@)
    }

    /// A relation over no nodes.
    pub fn new() -> (r: DepRelation)
        ensures
            r@ == Seq::<Seq<usize>>::empty(),
            r.wf(),
    {
        let r = DepRelation { lists: Vec::new() };
        assert(r@ =~= Seq::<Seq<usize>>::empty());
        r
    }

    /// The number of nodes.
    pub fn len(&self) -> (r: usize)
        ensures
            r == self@.len(),
    {
        self.lists.len()
    }

    /// Adds a node with no dependencies, at the next position.
    pub fn add_node(&mut self)
        requires
            old(self).wf(),
            old(self)@.len() < usize::MAX,
        ensures
            final(self)@ == old(self)@.push(Seq::empty()),
            final(self).wf(),
    {
        self.lists.push(Vec::new());
        assert(self@ =~= old(self)@.push(Seq::empty()));
    }

    /// The positions that node `a` depends on.
    pub fn dependencies_at(&self, a: usize) -> (r: &Vec<usize>)
        requires
            a < self@.len(),
        ensures
            r@ == self@[a as int],
    {
        &self.lists[a]
    }

    /// Records that `a` depends on `b`; a repeated edge changes nothing.
    pub fn add_edge(&mut self, a: usize, b: usize)
        requires
            old(self).wf(),
            a < old(self)@.len(),
            b < old(self)@.len(),
        ensures
            final(self)@ == with_edge(old(self)@, a, b),
            final(self).wf(),
    {
        let mut k: usize = 0;
        let n = self.lists[a].len();
        while k < n
            invariant
                self@ == old(self)@,
                old(self).wf(),
                n == self@[a as int].len(),
                a < self@.len(),
                k <= n,
                forall|j: int| 0 <= j < k ==> self@[a as int][j] != b,
            decreases n - k,
        {
            if self.lists[a][k] == b {
                assert(self@[a as int].contains(b));
                return;
            }
            k += 1;
        }
        self.lists[a].push(b);
        assert(self@ =~= with_edge(old(self)@, a, b));
    }

    /// One resolution step from `pos` against the nodes flagged in
    /// `satisfied`: `Ok` of the node reached whose dependencies are all
    /// satisfied, or `Err` of the node at which a cycle closed.
    pub fn get_next_dependency(&self, satisfied: &Vec<bool>, pos: usize) -> (r: Result<usize, usize>)
        requires
            self.wf(),
            satisfied@.len() == self@.len(),
            pos < self@.len(),
        ensures
            r == resolve(self@, flag_set(satisfied@), Seq::empty(), pos),
    {
        let n = self.lists.len();
        let ghost sat = flag_set(satisfied@);
        let mut on_path: Vec<bool> = Vec::new();
        while on_path.len() < n
            invariant
                on_path@.len() <= n,
                forall|i: int| 0 <= i < on_path@.len() ==> !on_path@[i],
            decreases n - on_path@.len(),
        {
            on_path.push(false);
        }
        let ghost mut path: Seq<usize> = Seq::empty();
        let mut cur = pos;
        loop
            invariant
                self.wf(),
                n == self@.len(),
                satisfied@.len() == n,
                sat == flag_set(satisfied@),
                on_path@.len() == n,
                forall|i: int| 0 <= i < n ==> on_path@[i] == path.contains(i as usize),
                path.no_duplicates(),
                forall|i: int| 0 <= i < path.len() ==> #[trigger] path[i] < n,
                cur < n,
                resolve(self@, sat, path, cur) == resolve(self@, sat, Seq::empty(), pos),
            decreases n - path.len(),
        {
            if on_path[cur] {
                return Err(cur);
            }
            proof {
                let p = path.push(cur);
                assert(p.no_duplicates());
                lemma_distinct_nodes_bounded(p, n);
            }
            on_path.set(cur, true);
            let list = &self.lists[cur];
            assert(list@ == self@[cur as int]);
            match first_unsatisfied_in(list, satisfied) {
                None => {
                    return Ok(cur);
                },
                Some(d) => {
                    proof {
                        lemma_first_unsatisfied(self@[cur as int], sat, 0);
                        let walked = path;
                        path = path.push(cur);
                        assert forall|i: int| 0 <= i < n implies on_path@[i] == path.contains(
                            i as usize,
                        ) by {
                            let x = i as usize;
                            if walked.contains(x) {
                                let j = choose|j: int| 0 <= j < walked.len() && walked[j] == x;
                                assert(path[j] == x);
                            }
                            if x == cur {
                                assert(path[walked.len() as int] == x);
                            }
                            if path.contains(x) {
                                let j = choose|j: int| 0 <= j < path.len() && path[j] == x;
                                if j < walked.len() {
                                    assert(walked[j] == x);
                                }
                            }
                        }
                    }
                    cur = d;
                },
            }
        }
    }
}

} // verus!
