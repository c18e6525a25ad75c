//! What a check finds, stated over the nodes that can be reached from the
//! root.

use crate::algorithms::checker::CheckModel;
use crate::formula::decision_dnnf::Formula;
use crate::formula::decision_dnnf::NodeModel;
use vstd::prelude::*;

verus! {

impl Formula {
    /// Whether a conjunction node that can be reached from the root has
    /// branches that share a variable.
    pub open spec fn has_reachable_fault(self) -> bool {
        exists|n: int|
            0 <= n < self.nodes.len() && (#[trigger] self.nodes[n]) is And && self.reachable(n)
                && !self.decomposable_at(n)
    }

    /// Whether a disjunction node that can be reached from the root has
    /// two branches of which nothing shows that they exclude each other.
    pub open spec fn has_reachable_suspect(self) -> bool {
        exists|n: int, i: int, j: int|
            0 <= n < self.nodes.len() && self.nodes[n] is Or && self.reachable(n) && 0 <= i < j
                < self.edge_list(n).len() && #[trigger] self.suspect(n, i, j)
    }

    /// Whether what a check has found is right: the nodes gone through can
    /// be reached from the root, their conjunction nodes are decomposable,
    /// and the targets of their edges were gone through; the error, if any,
    /// is a conjunction node that can be reached and whose branches share a
    /// variable; each warning is on two suspect branches of a disjunction
    /// node that can be reached; and there is a warning where a disjunction
    /// node gone through has two suspect branches.
    pub open spec fn found_right(self, found: CheckModel) -> bool {
        &&& found.done.len() == self.nodes.len()
        &&& forall|m: int|
            0 <= m < self.nodes.len() && #[trigger] found.done[m] ==> self.reachable(m) && (
            self.nodes[m] is And ==> self.decomposable_at(m))
        &&& forall|m: int, k: int|
            0 <= m < self.nodes.len() && found.done[m] && 0 <= k < self.edge_list(m).len()
                ==> found.done[#[trigger] self.child(m, k)]
        &&& found.error matches Some(n) ==> n < self.nodes.len() && self.nodes[n as int] is And
            && self.reachable(n as int) && !self.decomposable_at(n as int)
        &&& forall|w: int|
            0 <= w < found.warnings.len() ==> {
                let x = #[trigger] found.warnings[w];
                &&& x.2 < self.nodes.len()
                &&& self.nodes[x.2 as int] is Or
                &&& self.reachable(x.2 as int)
                &&& x.0 < x.1 < self.edge_list(x.2 as int).len()
                &&& self.suspect(x.2 as int, x.0 as int, x.1 as int)
            }
        &&& forall|m: int, i: int, j: int|
            0 <= m < self.nodes.len() && found.done[m] && self.nodes[m] is Or && 0 <= i < j
                < self.edge_list(m).len() && #[trigger] self.suspect(m, i, j)
                ==> found.warnings.len() > 0
    }

    /// The warnings on a branch and the branches after it are on suspect
    /// branches, and there is one where a branch after it is suspect.
    pub proof fn lemma_row(self, n: int, i: int, j: int)
        requires
            0 <= i,
            0 <= n,
        ensures
            forall|w: int|
                0 <= w < self.row(n, i, j).len() ==> {
                    let x = #[trigger] self.row(n, i, j)[w];
                    &&& x.2 == n
                    &&& x.0 == i
                    &&& i < x.1 < j
                    &&& self.suspect(n, i, x.1 as int)
                },
            forall|b: int| i < b < j && self.suspect(n, i, b) ==> self.row(n, i, j).len() > 0,
        decreases j - i,
    {
        if j > i + 1 {
            self.lemma_row(n, i, j - 1);
            let before = self.row(n, i, j - 1);
            assert forall|w: int| 0 <= w < self.row(n, i, j).len() implies {
                let x = #[trigger] self.row(n, i, j)[w];
                &&& x.2 == n
                &&& x.0 == i
                &&& i < x.1 < j
                &&& self.suspect(n, i, x.1 as int)
            } by {
                if w < before.len() {
                    assert(self.row(n, i, j)[w] == before[w]);
                }
            }
        }
    }

    /// The warnings on the first branches, each with the branches after it,
    /// are on suspect branches, and there is one where two branches are
    /// suspect.
    pub proof fn lemma_rows(self, n: int, i: int)
        requires
            0 <= i <= self.edge_list(n).len(),
            0 <= n,
        ensures
            forall|w: int|
                0 <= w < self.rows(n, i).len() ==> {
                    let x = #[trigger] self.rows(n, i)[w];
                    &&& x.2 == n
                    &&& x.0 < i
                    &&& x.0 < x.1 < self.edge_list(n).len()
                    &&& self.suspect(n, x.0 as int, x.1 as int)
                },
            forall|a: int, b: int|
                0 <= a < i && a < b < self.edge_list(n).len() && #[trigger] self.suspect(n, a, b)
                    ==> self.rows(n, i).len() > 0,
        decreases i,
    {
        if i > 0 {
            let len = self.edge_list(n).len() as int;
            self.lemma_rows(n, i - 1);
            self.lemma_row(n, i - 1, len);
            let before = self.rows(n, i - 1);
            let last = self.row(n, i - 1, len);
            assert forall|w: int| 0 <= w < self.rows(n, i).len() implies {
                let x = #[trigger] self.rows(n, i)[w];
                &&& x.2 == n
                &&& x.0 < i
                &&& x.0 < x.1 < self.edge_list(n).len()
                &&& self.suspect(n, x.0 as int, x.1 as int)
            } by {
                if w < before.len() {
                    assert(self.rows(n, i)[w] == before[w]);
                } else {
                    assert(self.rows(n, i)[w] == last[w - before.len()]);
                }
            }
        }
    }

    /// What a check has found stays right when it goes through a node
    /// that can be reached from the root; nothing that was found is lost;
    /// and without error the node was gone through.
    pub proof fn lemma_walked(self, found: CheckModel, n: int)
        requires
            self.wf(),
            0 <= n < self.nodes.len(),
            self.reachable(n),
            self.found_right(found),
        ensures
            self.found_right(self.walked(found, n)),
            self.walked(found, n).error is None ==> self.walked(found, n).done[n],
            forall|m: int|
                0 <= m < self.nodes.len() && found.done[m] ==> #[trigger] self.walked(
                    found,
                    n,
                ).done[m],
            self.walked(found, n).warnings.len() >= found.warnings.len(),
        decreases self.rank()[n], 1nat, 0nat,
    {
        let len = self.edge_list(n).len() as int;
        if !(found.error is Some || found.done[n]) {
            self.lemma_walked_children(found, n, len);
            let below = self.walked_children(found, n, len);
            if !(below.error is Some || below.done[n]) {
                let after = self.walked(found, n);
                assert forall|m: int, k: int|
                    0 <= m < self.nodes.len() && after.done[m] && 0 <= k < self.edge_list(
                        m,
                    ).len() implies after.done[#[trigger] self.child(m, k)] by {
                    self.lemma_child(m, k);
                    if m != n {
                        assert(below.done[self.child(m, k)]);
                    }
                }
                match self.nodes[n] {
                    NodeModel::Or(_) => {
                        self.lemma_rows(n, len);
                        let more = self.rows(n, len);
                        assert forall|w: int| 0 <= w < after.warnings.len() implies {
                            let x = #[trigger] after.warnings[w];
                            &&& x.2 < self.nodes.len()
                            &&& self.nodes[x.2 as int] is Or
                            &&& self.reachable(x.2 as int)
                            &&& x.0 < x.1 < self.edge_list(x.2 as int).len()
                            &&& self.suspect(x.2 as int, x.0 as int, x.1 as int)
                        } by {
                            if w < below.warnings.len() {
                                assert(after.warnings[w] == below.warnings[w]);
                            } else {
                                assert(after.warnings[w] == more[w - below.warnings.len()]);
                            }
                        }
                    },
                    _ => {},
                }
            }
        }
    }

    /// The same for the targets of the first `i` edges of a node that can
    /// be reached from the root.
    pub proof fn lemma_walked_children(self, found: CheckModel, n: int, i: int)
        requires
            self.wf(),
            0 <= n < self.nodes.len(),
            0 <= i <= self.edge_list(n).len(),
            self.reachable(n),
            self.found_right(found),
        ensures
            self.found_right(self.walked_children(found, n, i)),
            self.walked_children(found, n, i).error is None ==> forall|k: int|
                0 <= k < i ==> self.walked_children(found, n, i).done[#[trigger] self.child(n, k)],
            forall|m: int|
                0 <= m < self.nodes.len() && found.done[m] ==> #[trigger] self.walked_children(
                    found,
                    n,
                    i,
                ).done[m],
            self.walked_children(found, n, i).warnings.len() >= found.warnings.len(),
            found.error is Some ==> self.walked_children(found, n, i) == found,
        decreases self.rank()[n], 0nat, i,
    {
        if i > 0 {
            self.lemma_child(n, i - 1);
            self.lemma_reachable_step(n, i - 1);
            self.lemma_walked_children(found, n, i - 1);
            let before = self.walked_children(found, n, i - 1);
            self.lemma_walked(before, self.child(n, i - 1));
            let after = self.walked_children(found, n, i);
            if after.error is None {
                assert forall|k: int| 0 <= k < i implies after.done[#[trigger] self.child(
                    n,
                    k,
                )] by {
                    self.lemma_child(n, k);
                    if k < i - 1 {
                        assert(before.done[self.child(n, k)]);
                    }
                }
            }
        }
    }

    /// Where a check met no error, each node that can be reached from the
    /// root was gone through.
    pub proof fn lemma_all_walked(self, found: CheckModel, m: int, steps: nat)
        requires
            self.wf(),
            self.found_right(found),
            self.nodes.len() > 0,
            found.done[0],
            0 <= m < self.nodes.len(),
            self.reachable_in(m, steps),
        ensures
            found.done[m],
        decreases steps,
    {
        if m != 0 {
            let (x, i) = choose|x: int, i: int|
                0 <= x < self.nodes.len() && 0 <= i < self.edge_list(x).len() && #[trigger] self.child(
                    x,
                    i,
                ) == m && self.reachable_in(x, (steps - 1) as nat);
            self.lemma_all_walked(found, x, (steps - 1) as nat);
        }
    }

    /// What the check of a formula finds: its error is a conjunction node
    /// that can be reached from the root and whose branches share a
    /// variable, and it finds one exactly where there is such a node;
    /// without error, it gives a warning exactly where a disjunction node
    /// that can be reached from the root has two suspect branches.
    pub proof fn law_check_finds_what_can_be_reached(self)
        requires
            self.wf(),
            self.nodes.len() > 0,
        ensures
            self.found_right(self.checked()),
            self.checked().error is Some <==> self.has_reachable_fault(),
            self.checked().error is None ==> (self.checked().warnings.len() > 0
                <==> self.has_reachable_suspect()),
    {
        let start = CheckModel {
            error: None,
            warnings: Seq::empty(),
            done: Seq::new(self.nodes.len(), |n: int| false),
        };
        assert(self.reachable_in(0, 0));
        self.lemma_walked(start, 0);
        let found = self.checked();
        if found.error is None {
            if self.has_reachable_fault() {
                let n = choose|n: int|
                    0 <= n < self.nodes.len() && (#[trigger] self.nodes[n]) is And
                        && self.reachable(n) && !self.decomposable_at(n);
                let steps = choose|steps: nat| self.reachable_in(n, steps);
                self.lemma_all_walked(found, n, steps);
            }
            if self.has_reachable_suspect() {
                let (n, i, j) = choose|n: int, i: int, j: int|
                    0 <= n < self.nodes.len() && self.nodes[n] is Or && self.reachable(n) && 0
                        <= i < j < self.edge_list(n).len() && #[trigger] self.suspect(n, i, j);
                let steps = choose|steps: nat| self.reachable_in(n, steps);
                self.lemma_all_walked(found, n, steps);
            }
            if found.warnings.len() > 0 {
                let x = found.warnings[0];
                assert(self.suspect(x.2 as int, x.0 as int, x.1 as int));
            }
        } else {
            let n = found.error->0 as int;
            assert(self.nodes[n] is And);
        }
    }
}

} // verus!
