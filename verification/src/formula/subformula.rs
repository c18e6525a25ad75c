//! Subformulas: the part of a formula that can be reached from one of its
//! nodes, as a formula of its own.

use crate::formula::decision_dnnf::edge_models;
use crate::formula::decision_dnnf::edge_numbers;
use crate::formula::decision_dnnf::node_models;
use crate::formula::decision_dnnf::DecisionDNNF;
use crate::formula::decision_dnnf::Edge;
use crate::formula::decision_dnnf::EdgeIndex;
use crate::formula::decision_dnnf::Formula;
use crate::formula::decision_dnnf::Node;
use crate::formula::decision_dnnf::NodeIndex;
use crate::formula::decision_dnnf::NodeModel;
use vstd::prelude::*;

verus! {

/// Whether two nodes are of the same kind and have as many edges.
pub open spec fn same_shape(a: NodeModel, b: NodeModel) -> bool {
    &&& a is And <==> b is And
    &&& a is Or <==> b is Or
    &&& a is True <==> b is True
    &&& a is False <==> b is False
    &&& a.edge_list().len() == b.edge_list().len()
}

/// Whether the node `j` of `copy` is a copy of the node that `origin` gives
/// for it: of the same kind, with as many edges; each edge propagates the
/// literals of the edge that it is a copy of, and enters the copy of the
/// node that this edge enters.
pub open spec fn copied(f: Formula, copy: Formula, origin: Seq<int>, j: int) -> bool {
    &&& same_shape(copy.nodes[j], f.nodes[origin[j]])
    &&& forall|k: int|
        #![trigger copy.edge_list(j)[k]]
        0 <= k < copy.edge_list(j).len() ==> copy.edge(j, k).propagated == f.edge(
            origin[j],
            k,
        ).propagated && origin[copy.child(j, k)] == f.child(origin[j], k)
}

/// Whether `copy` holds one copy of some nodes of `f` that can be reached
/// from the node `root`, among them `root`, whose copy is the root:
/// `origin` gives, for each node of the copy, the node that it is a copy
/// of.
pub open spec fn embeds(copy: Formula, f: Formula, origin: Seq<int>, root: int) -> bool {
    &&& origin.len() == copy.nodes.len()
    &&& copy.nodes.len() > 0
    &&& origin[0] == root
    &&& forall|j: int|
        0 <= j < copy.nodes.len() ==> 0 <= (#[trigger] origin[j]) < f.nodes.len() && copied(
            f,
            copy,
            origin,
            j,
        )
    &&& forall|i: int, j: int|
        0 <= i < j < copy.nodes.len() ==> (#[trigger] origin[i]) != (#[trigger] origin[j])
    &&& forall|j: int| 0 <= j < copy.nodes.len() ==> f.reaches(root, #[trigger] origin[j])
}

/// Whether each node that was copied, but for the one whose copy is the
/// first, is the target of an edge of a node that was copied before it.
#[verifier::opaque]
pub open spec fn linked(f: Formula, map: Seq<Option<usize>>) -> bool {
    forall|m: int|
        0 <= m < f.nodes.len() && 0 <= m < map.len() && (#[trigger] map[m]) is Some && map[m]->0
            != 0 ==> exists|x: int, k: int|
            0 <= x < f.nodes.len() && 0 <= k < f.edge_list(x).len() && #[trigger] f.child(x, k)
                == m && map[x] is Some && map[x]->0 < map[m]->0
}

impl Formula {
    /// Whether the node `to` can be reached from the node `from` along at
    /// most `k` edges.
    pub open spec fn reaches_in(self, from: int, to: int, k: nat) -> bool
        decreases k,
    {
        to == from || (k > 0 && exists|m: int, i: int|
            0 <= m < self.nodes.len() && 0 <= i < self.edge_list(m).len() && #[trigger] self.child(
                m,
                i,
            ) == to && self.reaches_in(from, m, (k - 1) as nat))
    }

    /// Whether the node `to` can be reached from the node `from`.
    pub open spec fn reaches(self, from: int, to: int) -> bool {
        exists|k: nat| self.reaches_in(from, to, k)
    }
}

/// The copied nodes stay linked when one more node is copied that is the
/// target of an edge of a node that was copied, or is the first.
pub proof fn lemma_linked_more(
    f: Formula,
    before: Seq<Option<usize>>,
    after: Seq<Option<usize>>,
    n: int,
    index: usize,
    link: (int, int),
)
    requires
        linked(f, before),
        0 <= n < f.nodes.len(),
        before.len() == f.nodes.len(),
        before[n] is None,
        after == before.update(n, Some(index)),
        forall|m: int| 0 <= m < before.len() && (#[trigger] before[m]) is Some ==> before[m]->0 < index,
        index == 0 || (0 <= link.0 < f.nodes.len() && 0 <= link.1 < f.edge_list(link.0).len()
            && f.child(link.0, link.1) == n && before[link.0] is Some),
    ensures
        linked(f, after),
{
    reveal(linked);
    assert forall|m: int|
        0 <= m < f.nodes.len() && 0 <= m < after.len() && (#[trigger] after[m]) is Some
            && after[m]->0 != 0 implies exists|x: int, k: int|
        0 <= x < f.nodes.len() && 0 <= k < f.edge_list(x).len() && #[trigger] f.child(x, k) == m
            && after[x] is Some && after[x]->0 < after[m]->0 by {
        if m == n {
            assert(f.child(link.0, link.1) == m && after[link.0] is Some && after[link.0]->0
                < after[m]->0);
        } else {
            assert(before[m] is Some);
            let (x, k) = choose|x: int, k: int|
                0 <= x < f.nodes.len() && 0 <= k < f.edge_list(x).len() && #[trigger] f.child(x, k)
                    == m && before[x] is Some && before[x]->0 < before[m]->0;
            assert(x != n);
            assert(f.child(x, k) == m && after[x] is Some && after[x]->0 < after[m]->0);
        }
    }
}

/// The copy of a node, in a complete copy, can be reached from the root of
/// the copy, and the node can be reached from the node that was asked for.
pub proof fn lemma_copy_reached(
    f: Formula,
    map: Seq<Option<usize>>,
    copy: Formula,
    origin: Seq<int>,
    root: int,
    m: int,
)
    requires
        f.wf(),
        origin.len() == copy.nodes.len(),
        map.len() == f.nodes.len(),
        forall|x: int|
            0 <= x < f.nodes.len() && (#[trigger] map[x]) is Some ==> map[x]->0 < copy.nodes.len()
                && origin[map[x]->0 as int] == x,
        forall|a: int, b: int|
            0 <= a < b < copy.nodes.len() ==> (#[trigger] origin[a]) != (#[trigger] origin[b]),
        forall|i: int| 0 <= i < copy.nodes.len() ==> #[trigger] copied(f, copy, origin, i),
        forall|i: int, k: int|
            0 <= i < copy.nodes.len() && 0 <= k < copy.edge_list(i).len() ==> 0 <= #[trigger] copy.child(
                i,
                k,
            ) < copy.nodes.len(),
        linked(f, map),
        copy.nodes.len() > 0,
        origin[0] == root,
        0 <= m < f.nodes.len(),
        map[m] is Some,
    ensures
        copy.reachable(map[m]->0 as int),
        f.reaches(root, m),
    decreases map[m]->0,
{
    let j = map[m]->0 as int;
    if j == 0 {
        assert(copy.reachable_in(0, 0));
        assert(f.reaches_in(root, root, 0));
    } else {
        reveal(linked);
        let (x, k) = choose|x: int, k: int|
            0 <= x < f.nodes.len() && 0 <= k < f.edge_list(x).len() && #[trigger] f.child(x, k)
                == m && map[x] is Some && map[x]->0 < map[m]->0;
        let p = map[x]->0 as int;
        lemma_copy_reached(f, map, copy, origin, root, x);
        assert(copied(f, copy, origin, p));
        assert(copy.edge_list(p)[k] == copy.edge_list(p)[k]);
        let target = copy.child(p, k);
        assert(0 <= target < copy.nodes.len());
        assert(origin[target] == m);
        if target < j {
            assert(origin[target] != origin[j]);
        }
        if j < target {
            assert(origin[j] != origin[target]);
        }
        copy.lemma_reachable_step(p, k);
        let steps = choose|steps: nat| f.reaches_in(root, x, steps);
        assert(f.reaches_in(root, m, steps + 1));
    }
}

/// What holds of a copy in progress: `origin` gives, for each node of the
/// copy, the node that it is a copy of, and `map` gives, for each node that
/// was copied, its copy. `done` tells which nodes of the copy are complete:
/// they are copies of the nodes that `origin` gives for them.
pub open spec fn copy_inv(
    f: Formula,
    map: Seq<Option<usize>>,
    copy: Formula,
    origin: Seq<int>,
    done: Seq<bool>,
) -> bool {
    &&& map.len() == f.nodes.len()
    &&& done.len() == copy.nodes.len()
    &&& forall|j: int| 0 <= j < copy.nodes.len() && #[trigger] done[j] ==> copied(f, copy, origin, j)
    &&& origin.len() == copy.nodes.len()
    &&& copy.n_vars == f.n_vars
    &&& forall|m: int|
        0 <= m < f.nodes.len() && (#[trigger] map[m]) is Some ==> map[m]->0 < copy.nodes.len()
            && origin[map[m]->0 as int] == m
    &&& forall|j: int|
        0 <= j < copy.nodes.len() ==> 0 <= (#[trigger] origin[j]) < f.nodes.len() && map[origin[j]]
            == Some(j as usize)
    &&& forall|e: int|
        0 <= e < copy.edges.len() ==> (#[trigger] copy.edges[e]).target < copy.nodes.len()
    &&& forall|e: int, k: int|
        0 <= e < copy.edges.len() && 0 <= k < copy.edges[e].propagated.len() ==> (
        #[trigger] copy.edges[e].propagated[k]).var() < f.n_vars
    &&& forall|j: int, k: int|
        0 <= j < copy.nodes.len() && 0 <= k < copy.edge_list(j).len() ==> (
        #[trigger] copy.edge_list(j)[k]) < copy.edges.len() && f.rank()[origin[copy.edges[copy.edge_list(
            j,
        )[k] as int].target as int]] < f.rank()[origin[j]]
}

/// Copies the node `from` and what can be reached from it, unless it was
/// copied before, and returns the index of its copy.
#[verifier::loop_isolation(false)]
fn copy_from(
    ddnnf: &DecisionDNNF,
    from: NodeIndex,
    map: &mut Vec<Option<usize>>,
    nodes: &mut Vec<Node>,
    edges: &mut Vec<Edge>,
    origin: &mut Ghost<Seq<int>>,
    done: &mut Ghost<Seq<bool>>,
    Ghost(link): Ghost<(int, int)>,
) -> (r: usize)
    requires
        ddnnf@.wf(),
        from.0 < ddnnf@.nodes.len(),
        linked(ddnnf@, old(map)@),
        old(nodes)@.len() == 0 || (0 <= link.0 < ddnnf@.nodes.len() && 0 <= link.1
            < ddnnf@.edge_list(link.0).len() && ddnnf@.child(link.0, link.1) == from.0 && old(
            map,
        )@[link.0] is Some),
        copy_inv(
            ddnnf@,
            old(map)@,
            Formula {
                n_vars: ddnnf@.n_vars,
                nodes: node_models(old(nodes)@),
                edges: edge_models(old(edges)@),
            },
            old(origin)@,
            old(done)@,
        ),
        forall|j: int|
            0 <= j < old(nodes)@.len() && !(#[trigger] old(done)@[j]) ==> ddnnf@.rank()[old(
                origin,
            )@[j]] > ddnnf@.rank()[from.0 as int],
    ensures
        copy_inv(
            ddnnf@,
            final(map)@,
            Formula {
                n_vars: ddnnf@.n_vars,
                nodes: node_models(final(nodes)@),
                edges: edge_models(final(edges)@),
            },
            final(origin)@,
            final(done)@,
        ),
        final(done)@[r as int],
        linked(ddnnf@, final(map)@),
        forall|j: int| 0 <= j < old(nodes)@.len() ==> #[trigger] final(done)@[j] == old(done)@[j],
        forall|j: int| old(nodes)@.len() <= j < final(nodes)@.len() ==> #[trigger] final(done)@[j],
        final(map)@[from.0 as int] == Some(r),
        final(nodes)@.len() >= old(nodes)@.len(),
        final(edges)@.len() >= old(edges)@.len(),
        forall|j: int| 0 <= j < old(nodes)@.len() ==> #[trigger] final(nodes)@[j] == old(nodes)@[j],
        forall|e: int| 0 <= e < old(edges)@.len() ==> #[trigger] final(edges)@[e] == old(edges)@[e],
        forall|j: int| 0 <= j < old(origin)@.len() ==> #[trigger] final(origin)@[j] == old(origin)@[j],
        forall|m: int|
            0 <= m < ddnnf@.nodes.len() && old(map)@[m] is Some ==> #[trigger] final(map)@[m]
                == old(map)@[m],
        old(map)@[from.0 as int] is None ==> r == old(nodes)@.len() && same_shape(
            final(nodes)@[r as int]@,
            ddnnf@.nodes[from.0 as int],
        ),
    decreases ddnnf@.rank()[from.0 as int],
{
    match map[from.0] {
        Some(index) => {
            proof {
                assert(origin@[index as int] == from.0);
            }
            return index;
        },
        None => {},
    }
    let ghost f = ddnnf@;
    let ghost n = from.0 as int;
    let index = nodes.len();
    let ghost entry = Formula {
        n_vars: f.n_vars,
        nodes: node_models(nodes@),
        edges: edge_models(edges@),
    };
    nodes.push(Node::True);
    map.set(from.0, Some(index));
    proof {
        lemma_linked_more(f, old(map)@, map@, n, index, link);
        origin@ = origin@.push(n);
        done@ = done@.push(false);
        let copy = Formula {
            n_vars: f.n_vars,
            nodes: node_models(nodes@),
            edges: edge_models(edges@),
        };
        assert forall|j: int| 0 <= j < copy.nodes.len() && #[trigger] done@[j] implies copied(
            f,
            copy,
            origin@,
            j,
        ) by {
            assert(old(done)@[j]);
            assert(copied(f, entry, old(origin)@, j));
            assert(copy.nodes[j] == entry.nodes[j]);
            assert forall|k: int|
                #![trigger copy.edge_list(j)[k]]
                0 <= k < copy.edge_list(j).len() implies copy.edge(j, k).propagated == f.edge(
                origin@[j],
                k,
            ).propagated && origin@[copy.child(j, k)] == f.child(origin@[j], k) by {
                assert(entry.edge_list(j)[k] < entry.edges.len());
                assert(entry.edges[entry.edge_list(j)[k] as int].target < entry.nodes.len());
            }
        }
        assert forall|j: int| 0 <= j < copy.nodes.len() implies 0 <= (#[trigger] origin@[j])
            < f.nodes.len() && map@[origin@[j]] == Some(j as usize) by {
            if j < index {
                assert(old(origin)@[j] == origin@[j]);
                assert(old(map)@[old(origin)@[j]] == Some(j as usize));
            }
        }
        assert forall|m: int| 0 <= m < f.nodes.len() && (#[trigger] map@[m]) is Some implies map@[m]->0
            < copy.nodes.len() && origin@[map@[m]->0 as int] == m by {
            if m != n {
                assert(old(map)@[m] is Some);
            }
        }
        assert forall|j: int, k: int|
            0 <= j < copy.nodes.len() && 0 <= k < copy.edge_list(j).len() implies (
        #[trigger] copy.edge_list(j)[k]) < copy.edges.len() && f.rank()[origin@[copy.edges[copy.edge_list(
            j,
        )[k] as int].target as int]] < f.rank()[origin@[j]] by {
            if j < index {
                assert(copy.edge_list(j) == entry.edge_list(j));
                assert(entry.edge_list(j)[k] < entry.edges.len());
                assert(entry.edges[entry.edge_list(j)[k] as int].target < entry.nodes.len());
            }
        }
        assert forall|e: int| 0 <= e < copy.edges.len() implies (#[trigger] copy.edges[e]).target
            < copy.nodes.len() by {
            assert(entry.edges[e].target < entry.nodes.len());
        }
    }
    proof {
        let copy = Formula {
            n_vars: f.n_vars,
            nodes: node_models(nodes@),
            edges: edge_models(edges@),
        };
        assert forall|e: int, k: int|
            0 <= e < copy.edges.len() && 0 <= k < copy.edges[e].propagated.len() implies (
        #[trigger] copy.edges[e].propagated[k]).var() < f.n_vars by {
            assert(copy.edges[e] == entry.edges[e]);
            assert(entry.edges[e].propagated[k].var() < f.n_vars);
        }
    }
    let source = ddnnf.node(from);
    let items = source.edge_indices();
    let mut collected: Vec<EdgeIndex> = Vec::new();
    let mut i: usize = 0;
    while i < items.len()
        invariant
            i <= items.len(),
            edge_numbers(items@) == f.edge_list(n),
            collected@.len() == i,
            index < nodes@.len(),
            nodes@[index as int]@ is True,
            origin@[index as int] == n,
            map@[n] == Some(index),
            nodes@.len() >= old(nodes)@.len() + 1,
            edges@.len() >= old(edges)@.len(),
            copy_inv(
                f,
                map@,
                Formula { n_vars: f.n_vars, nodes: node_models(nodes@), edges: edge_models(edges@) },
                origin@,
                done@,
            ),
            !done@[index as int],
            linked(f, map@),
            forall|j: int| 0 <= j < old(nodes)@.len() ==> #[trigger] done@[j] == old(done)@[j],
            forall|j: int| index < j < nodes@.len() ==> #[trigger] done@[j],
            forall|k: int|
                0 <= k < i ==> edges@[(#[trigger] collected@[k]).0 as int]@.propagated == f.edge(
                    n,
                    k,
                ).propagated,
            forall|j: int| 0 <= j < old(nodes)@.len() ==> #[trigger] nodes@[j] == old(nodes)@[j],
            forall|e: int| 0 <= e < old(edges)@.len() ==> #[trigger] edges@[e] == old(edges)@[e],
            forall|j: int| 0 <= j < old(origin)@.len() ==> #[trigger] origin@[j] == old(origin)@[j],
            forall|m: int|
                0 <= m < f.nodes.len() && old(map)@[m] is Some ==> #[trigger] map@[m] == old(
                    map,
                )@[m],
            forall|k: int|
                0 <= k < i ==> (#[trigger] collected@[k]).0 < edges@.len() && origin@[edges@[collected@[k].0 as int]@.target as int]
                    == f.child(n, k),
        decreases items.len() - i,
    {
        proof {
            f.lemma_child(n, i as int);
            crate::algorithms::model_enumerator::lemma_propagated_in_range(f, n, i as int);
        }
        let edge = ddnnf.edge(items[i]);
        let ghost edges_before = edges@;
        let ghost origin_before = origin@;
        let ghost inner = Formula {
            n_vars: f.n_vars,
            nodes: node_models(nodes@),
            edges: edge_models(edges@),
        };
        let ghost done_before = done@;
        proof {
            assert forall|j: int| 0 <= j < nodes@.len() && !(#[trigger] done@[j]) implies f.rank()[origin@[j]]
                > f.rank()[f.child(n, i as int)] by {
                if j < old(nodes)@.len() {
                    assert(!old(done)@[j]);
                    assert(origin@[j] == old(origin)@[j]);
                }
            }
        }
        let target = copy_from(
            ddnnf,
            edge.target(),
            map,
            nodes,
            edges,
            origin,
            done,
            Ghost((n, i as int)),
        );
        let ghost edges_middle = edges@;
        proof {
            assert(map@[f.child(n, i as int)] == Some(target));
            assert(origin@[target as int] == f.child(n, i as int));
        }
        edges.push(
            Edge::from_raw_data(NodeIndex(target), vstd::slice::slice_to_vec(edge.propagated())),
        );
        collected.push(EdgeIndex(edges.len() - 1));
        proof {
            let copy = Formula {
                n_vars: f.n_vars,
                nodes: node_models(nodes@),
                edges: edge_models(edges@),
            };
            let before = Formula {
                n_vars: f.n_vars,
                nodes: node_models(nodes@),
                edges: edge_models(edges_middle),
            };
            assert forall|e: int| 0 <= e < copy.edges.len() implies (
            #[trigger] copy.edges[e]).target < copy.nodes.len() by {
                if e < edges_middle.len() {
                    assert(copy.edges[e] == before.edges[e]);
                }
            }
            assert forall|e: int, k: int|
                0 <= e < copy.edges.len() && 0 <= k < copy.edges[e].propagated.len() implies (
            #[trigger] copy.edges[e].propagated[k]).var() < f.n_vars by {
                if e < edges_middle.len() {
                    assert(copy.edges[e] == before.edges[e]);
                    assert(before.edges[e].propagated[k].var() < f.n_vars);
                }
            }
            assert forall|j: int, k: int|
                0 <= j < copy.nodes.len() && 0 <= k < copy.edge_list(j).len() implies (
            #[trigger] copy.edge_list(j)[k]) < copy.edges.len() && f.rank()[origin@[copy.edges[copy.edge_list(
                j,
            )[k] as int].target as int]] < f.rank()[origin@[j]] by {
                assert(copy.edge_list(j) == before.edge_list(j));
                assert(before.edge_list(j)[k] < before.edges.len());
                assert(copy.edges[before.edge_list(j)[k] as int] == before.edges[before.edge_list(
                    j,
                )[k] as int]);
            }
            assert forall|j: int| 0 <= j < copy.nodes.len() && #[trigger] done@[j] implies copied(
                f,
                copy,
                origin@,
                j,
            ) by {
                assert(copied(f, before, origin@, j));
                assert forall|k: int|
                    #![trigger copy.edge_list(j)[k]]
                    0 <= k < copy.edge_list(j).len() implies copy.edge(j, k).propagated == f.edge(
                    origin@[j],
                    k,
                ).propagated && origin@[copy.child(j, k)] == f.child(origin@[j], k) by {
                    assert(before.edge_list(j)[k] < before.edges.len());
                    assert(copy.edges[before.edge_list(j)[k] as int] == before.edges[before.edge_list(
                        j,
                    )[k] as int]);
                }
            }
            assert forall|k: int| 0 <= k < i + 1 implies edges@[(
            #[trigger] collected@[k]).0 as int]@.propagated == f.edge(n, k).propagated by {
                if k < i {
                    let e = collected@[k].0 as int;
                    assert(e < edges_before.len());
                    assert(edges@[e] == edges_before[e]);
                }
            }
            assert forall|k: int| 0 <= k < i + 1 implies (#[trigger] collected@[k]).0 < edges@.len()
                && origin@[edges@[collected@[k].0 as int]@.target as int] == f.child(n, k) by {
                if k < i {
                    let e = collected@[k].0 as int;
                    assert(e < edges_before.len());
                    assert(edges@[e] == edges_before[e]);
                    assert(inner.edges[e].target < inner.nodes.len());
                    assert(origin@[edges_before[e]@.target as int] == origin_before[edges_before[e]@.target as int]);
                } else {
                    assert(edges@[collected@[k].0 as int]@.target == target);
                }
            }
        }
        i = i + 1;
    }
    let node = match source {
        Node::And(_) => Node::And(collected),
        Node::Or(_) => Node::Or(collected),
        Node::True => Node::True,
        Node::False => Node::False,
    };
    let ghost nodes_before = nodes@;
    let ghost done_before = done@;
    nodes.set(index, node);
    proof {
        done@ = done@.update(index as int, true);
        let copy = Formula {
            n_vars: f.n_vars,
            nodes: node_models(nodes@),
            edges: edge_models(edges@),
        };
        let before = Formula {
            n_vars: f.n_vars,
            nodes: node_models(nodes_before),
            edges: edge_models(edges@),
        };
        assert forall|j: int| 0 <= j < copy.nodes.len() && #[trigger] done@[j] implies copied(
            f,
            copy,
            origin@,
            j,
        ) by {
            if j == index {
                assert(copy.nodes[j] == node@);
                assert(origin@[j] == n);
                assert(edge_numbers(collected@).len() == f.edge_list(n).len());
                assert(same_shape(copy.nodes[j], f.nodes[n]));
                assert forall|k: int|
                    #![trigger copy.edge_list(j)[k]]
                    0 <= k < copy.edge_list(j).len() implies copy.edge(j, k).propagated == f.edge(
                    origin@[j],
                    k,
                ).propagated && origin@[copy.child(j, k)] == f.child(origin@[j], k) by {
                    assert(copy.edge_list(j)[k] == collected@[k].0);
                    assert(copy.edge(j, k) == edges@[collected@[k].0 as int]@);
                }
            } else {
                assert(done_before[j]);
                assert(copied(f, before, origin@, j));
                assert(copy.nodes[j] == before.nodes[j]);
                assert forall|k: int|
                    #![trigger copy.edge_list(j)[k]]
                    0 <= k < copy.edge_list(j).len() implies copy.edge(j, k).propagated == f.edge(
                    origin@[j],
                    k,
                ).propagated && origin@[copy.child(j, k)] == f.child(origin@[j], k) by {
                    assert(before.edge_list(j)[k] == copy.edge_list(j)[k]);
                    assert(copy.edge(j, k) == before.edge(j, k));
                }
            }
        }
        assert forall|j: int, k: int|
            0 <= j < copy.nodes.len() && 0 <= k < copy.edge_list(j).len() implies (
        #[trigger] copy.edge_list(j)[k]) < copy.edges.len() && f.rank()[origin@[copy.edges[copy.edge_list(
            j,
        )[k] as int].target as int]] < f.rank()[origin@[j]] by {
            if j == index {
                assert(copy.edge_list(j)[k] == collected@[k].0);
                f.lemma_child(n, k);
            } else {
                assert(copy.edge_list(j) == before.edge_list(j));
                assert(before.edge_list(j)[k] < before.edges.len());
            }
        }
        assert forall|e: int| 0 <= e < copy.edges.len() implies (#[trigger] copy.edges[e]).target
            < copy.nodes.len() by {
            assert(before.edges[e].target < before.nodes.len());
        }
        assert forall|e: int, k: int|
            0 <= e < copy.edges.len() && 0 <= k < copy.edges[e].propagated.len() implies (
        #[trigger] copy.edges[e].propagated[k]).var() < f.n_vars by {
            assert(before.edges[e].propagated[k].var() < f.n_vars);
        }
    }
    index
}

impl DecisionDNNF {
    /// Returns the subformula rooted at the node `root`: a new formula that
    /// holds a copy of each node that can be reached from `root`, with the
    /// copy of `root` as its root, and has as many variables as this
    /// formula.
    pub fn subformula(&self, root: NodeIndex) -> (r: DecisionDNNF)
        requires
            self@.wf(),
            root.0 < self@.nodes.len(),
        ensures
            r@.wf(),
            r@.n_vars == self@.n_vars,
            same_shape(r@.nodes[0], self@.nodes[root.0 as int]),
            exists|origin: Seq<int>| embeds(r@, self@, origin, root.0 as int),
            forall|j: int| 0 <= j < r@.nodes.len() ==> #[trigger] r@.reachable(j),
    {
        let ghost f = self@;
        let n_nodes = self.n_nodes();
        let mut map: Vec<Option<usize>> = Vec::new();
        let mut i: usize = 0;
        while i < n_nodes
            invariant
                i <= n_nodes,
                map@.len() == i,
                forall|m: int| 0 <= m < i ==> (#[trigger] map@[m]) is None,
            decreases n_nodes - i,
        {
            map.push(None);
            i = i + 1;
        }
        let mut nodes: Vec<Node> = Vec::new();
        let mut edges: Vec<Edge> = Vec::new();
        let mut origin: Ghost<Seq<int>> = Ghost(Seq::empty());
        let mut done: Ghost<Seq<bool>> = Ghost(Seq::empty());
        proof {
            reveal(linked);
        }
        let _ = copy_from(
            self,
            root,
            &mut map,
            &mut nodes,
            &mut edges,
            &mut origin,
            &mut done,
            Ghost((0, 0)),
        );
        assert(nodes.len() <= usize::MAX);
        let r = DecisionDNNF::from_raw_data(self.n_vars(), nodes, edges);
        proof {
            assert forall|i: int| 0 <= i < r@.nodes.len() implies #[trigger] copied(
                f,
                r@,
                origin@,
                i,
            ) by {
                assert(done@[i]);
            }
            assert forall|i: int, k: int|
                0 <= i < r@.nodes.len() && 0 <= k < r@.edge_list(i).len() implies 0
                <= #[trigger] r@.child(i, k) < r@.nodes.len() by {
                assert(r@.edge_list(i)[k] < r@.edges.len());
                assert(r@.edges[r@.edge_list(i)[k] as int].target < r@.nodes.len());
            }
            assert forall|a: int, b: int| 0 <= a < b < r@.nodes.len() implies (
            #[trigger] origin@[a]) != (#[trigger] origin@[b]) by {
                assert(map@[origin@[a]] == Some(a as usize));
                assert(map@[origin@[b]] == Some(b as usize));
            }
            assert forall|j: int| 0 <= j < r@.nodes.len() implies #[trigger] r@.reachable(j)
                && f.reaches(root.0 as int, origin@[j]) by {
                assert(map@[origin@[j]] == Some(j as usize));
                lemma_copy_reached(f, map@, r@, origin@, root.0 as int, origin@[j]);
            }
            assert forall|j: int| 0 <= j < r@.nodes.len() implies f.reaches(
                root.0 as int,
                #[trigger] origin@[j],
            ) by {
                assert(r@.reachable(j));
            }
            assert(embeds(r@, f, origin@, root.0 as int)) by {
                assert forall|i: int, j: int| 0 <= i < j < r@.nodes.len() implies (
                #[trigger] origin@[i]) != (#[trigger] origin@[j]) by {
                    assert(map@[origin@[i]] == Some(i as usize));
                    assert(map@[origin@[j]] == Some(j as usize));
                }
                assert forall|j: int| 0 <= j < r@.nodes.len() implies 0 <= (#[trigger] origin@[j])
                    < f.nodes.len() && copied(f, r@, origin@, j) by {
                    assert(done@[j]);
                }
            }
            let rank = Seq::new(r@.nodes.len(), |j: int| f.rank()[origin@[j]]);
            assert(r@.ranked_by(rank)) by {
                assert forall|j: int, k: int|
                    0 <= j < r@.nodes.len() && 0 <= k < r@.edge_list(j).len() implies rank[
                #[trigger] r@.child(j, k)] < rank[j] by {
                    assert(r@.edge_list(j)[k] < r@.edges.len());
                    assert(r@.edges[r@.edge_list(j)[k] as int].target < r@.nodes.len());
                }
            }
            assert(r@.well_indexed()) by {
                assert forall|j: int, k: int|
                    0 <= j < r@.nodes.len() && 0 <= k < r@.edge_list(j).len() implies (
                #[trigger] r@.edge_list(j)[k]) < r@.edges.len() by {}
            }
        }
        r
    }
}

} // verus!
