//! A copy of a part of a formula counts what the part counts.

use crate::algorithms::counting::Query;
use crate::formula::decision_dnnf::Formula;
use crate::formula::decision_dnnf::NodeModel;
use crate::formula::subformula::copied;
use crate::formula::subformula::embeds;
use vstd::prelude::*;

verus! {

/// The `k`-th branch of a node of the copy is the copy of the `k`-th
/// branch of the node that it is a copy of.
pub proof fn lemma_copied_branch(
    copy: Formula,
    f: Formula,
    origin: Seq<int>,
    root: int,
    j: int,
    k: int,
)
    requires
        copy.wf(),
        f.wf(),
        embeds(copy, f, origin, root),
        0 <= j < copy.nodes.len(),
        0 <= k < copy.edge_list(j).len(),
    ensures
        0 <= origin[j] < f.nodes.len(),
        copy.edge_list(j).len() == f.edge_list(origin[j]).len(),
        copy.edge(j, k).propagated == f.edge(origin[j], k).propagated,
        0 <= copy.child(j, k) < copy.nodes.len(),
        origin[copy.child(j, k)] == f.child(origin[j], k),
        copy.rank()[copy.child(j, k)] < copy.rank()[j],
{
    assert(copied(f, copy, origin, j));
    assert(copy.edge_list(j)[k] == copy.edge_list(j)[k]);
    copy.lemma_child(j, k);
}

/// A copy misses nothing: where `copy` holds one copy of some nodes of `f`,
/// among them the node `root`, each node of `f` that can be reached from
/// `root` has a copy.
pub proof fn law_copy_misses_nothing(
    copy: Formula,
    f: Formula,
    origin: Seq<int>,
    root: int,
    m: int,
    steps: nat,
)
    requires
        copy.wf(),
        f.wf(),
        embeds(copy, f, origin, root),
        f.reaches_in(root, m, steps),
    ensures
        exists|j: int| 0 <= j < copy.nodes.len() && #[trigger] origin[j] == m,
    decreases steps,
{
    if m == root {
        assert(origin[0] == m);
    } else {
        let (x, i) = choose|x: int, i: int|
            0 <= x < f.nodes.len() && 0 <= i < f.edge_list(x).len() && #[trigger] f.child(x, i)
                == m && f.reaches_in(root, x, (steps - 1) as nat);
        law_copy_misses_nothing(copy, f, origin, root, x, (steps - 1) as nat);
        let p = choose|p: int| 0 <= p < copy.nodes.len() && #[trigger] origin[p] == x;
        assert(copied(f, copy, origin, p));
        lemma_copied_branch(copy, f, origin, root, p, i);
        assert(origin[copy.child(p, i)] == m);
    }
}

/// A node of the copy involves the variables that the node that it is a
/// copy of involves.
pub proof fn lemma_copied_involved(copy: Formula, f: Formula, origin: Seq<int>, root: int, j: int)
    requires
        copy.wf(),
        f.wf(),
        embeds(copy, f, origin, root),
        0 <= j < copy.nodes.len(),
    ensures
        0 <= origin[j] < f.nodes.len(),
        copy.edge_list(j).len() == f.edge_list(origin[j]).len(),
        copy.involved(j) == f.involved(origin[j]),
        forall|k: int|
            0 <= k < copy.edge_list(j).len() ==> #[trigger] copy.branch_vars(j, k)
                == f.branch_vars(origin[j], k),
    decreases copy.rank()[j], 1nat, 0nat,
{
    assert(copied(f, copy, origin, j));
    lemma_copied_involved_upto(copy, f, origin, root, j, copy.edge_list(j).len() as int);
}

/// The same for the first `i` branches of a node.
pub proof fn lemma_copied_involved_upto(
    copy: Formula,
    f: Formula,
    origin: Seq<int>,
    root: int,
    j: int,
    i: int,
)
    requires
        copy.wf(),
        f.wf(),
        embeds(copy, f, origin, root),
        0 <= j < copy.nodes.len(),
        0 <= i <= copy.edge_list(j).len(),
    ensures
        0 <= origin[j] < f.nodes.len(),
        copy.edge_list(j).len() == f.edge_list(origin[j]).len(),
        copy.involved_upto(j, i) == f.involved_upto(origin[j], i),
        forall|k: int|
            0 <= k < i ==> #[trigger] copy.branch_vars(j, k) == f.branch_vars(origin[j], k),
    decreases copy.rank()[j], 0nat, i,
{
    assert(copied(f, copy, origin, j));
    if i > 0 {
        lemma_copied_branch(copy, f, origin, root, j, i - 1);
        lemma_copied_involved_upto(copy, f, origin, root, j, i - 1);
        lemma_copied_involved(copy, f, origin, root, copy.child(j, i - 1));
        f.lemma_child(origin[j], i - 1);
        assert(copy.branch_vars(j, i - 1) == f.branch_vars(origin[j], i - 1));
    }
}

/// Counting in a copy: where `copy` holds one copy of some nodes of `f`,
/// each node of the copy counts, under any query, what the node that it is
/// a copy of counts in `f`.
pub proof fn law_copy_counts_the_same(
    copy: Formula,
    f: Formula,
    origin: Seq<int>,
    root: int,
    q: Query,
    j: int,
)
    requires
        copy.wf(),
        f.wf(),
        copy.n_vars == f.n_vars,
        embeds(copy, f, origin, root),
        0 <= j < copy.nodes.len(),
    ensures
        copy.count(q, j) == f.count(q, origin[j]),
    decreases copy.rank()[j], 1nat, 0nat,
{
    assert(copied(f, copy, origin, j));
    let len = copy.edge_list(j).len() as int;
    lemma_copied_counts_upto(copy, f, origin, root, q, j, len);
    match copy.nodes[j] {
        NodeModel::And(_) => {
            assert(copy.count(q, j) == copy.product_upto(q, j, len));
            assert(f.count(q, origin[j]) == f.product_upto(q, origin[j], len));
        },
        NodeModel::Or(_) => {
            assert(copy.count(q, j) == copy.sum_upto(q, j, len));
            assert(f.count(q, origin[j]) == f.sum_upto(q, origin[j], len));
        },
        _ => {},
    }
}

/// The same for the first `i` branches of a node.
pub proof fn lemma_copied_counts_upto(
    copy: Formula,
    f: Formula,
    origin: Seq<int>,
    root: int,
    q: Query,
    j: int,
    i: int,
)
    requires
        copy.wf(),
        f.wf(),
        copy.n_vars == f.n_vars,
        embeds(copy, f, origin, root),
        0 <= j < copy.nodes.len(),
        0 <= i <= copy.edge_list(j).len(),
    ensures
        0 <= origin[j] < f.nodes.len(),
        copy.edge_list(j).len() == f.edge_list(origin[j]).len(),
        copy.product_upto(q, j, i) == f.product_upto(q, origin[j], i),
        copy.sum_upto(q, j, i) == f.sum_upto(q, origin[j], i),
    decreases copy.rank()[j], 0nat, i,
{
    assert(copied(f, copy, origin, j));
    if i > 0 {
        let n = origin[j];
        lemma_copied_branch(copy, f, origin, root, j, i - 1);
        lemma_copied_counts_upto(copy, f, origin, root, q, j, i - 1);
        law_copy_counts_the_same(copy, f, origin, root, q, copy.child(j, i - 1));
        lemma_copied_involved(copy, f, origin, root, j);
        f.lemma_child(n, i - 1);
        assert(copy.branch_vars(j, i - 1) == f.branch_vars(n, i - 1));
        assert(copy.blocked(q, j, i - 1) == f.blocked(q, n, i - 1));
        assert(copy.count_via(q, j, i - 1) == f.count_via(q, n, i - 1));
        assert(copy.or_free_set(j, i - 1) == f.or_free_set(n, i - 1));
        assert(copy.or_free_vars(j, i - 1) == f.or_free_vars(n, i - 1));
        assert(copy.weight(q, j, i - 1) == f.weight(q, n, i - 1));
        assert(copy.product_upto(q, j, i) == copy.product_upto(q, j, i - 1) * copy.count_via(
            q,
            j,
            i - 1,
        ));
        assert(f.product_upto(q, n, i) == f.product_upto(q, n, i - 1) * f.count_via(q, n, i - 1));
    } else {
        assert(copy.product_upto(q, j, 0) == 1);
        assert(f.product_upto(q, origin[j], 0) == 1);
    }
}

} // verus!
