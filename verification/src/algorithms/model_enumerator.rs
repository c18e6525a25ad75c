//! Model enumeration: the models of a formula one after the other, each
//! obtained from the one before it by a walk of the graph.

use crate::algorithms::counting::no_assumption;
use crate::algorithms::counting::Query;
use crate::algorithms::direct_access::assumed_model;
use crate::algorithms::direct_access::graph_view;
use crate::algorithms::direct_access::lemma_unassumed_below;
use crate::algorithms::direct_access::lemma_write_free_len;
use crate::algorithms::direct_access::new_graph;
use crate::algorithms::direct_access::new_model;
use crate::algorithms::direct_access::update_model_with_free_vars;
use crate::algorithms::direct_access::vars_below;
use crate::algorithms::direct_access::write_all;
use crate::algorithms::direct_access::write_free;
use crate::algorithms::direct_access::write_literals;
use crate::algorithms::direct_access::DirectAccessEngine;
use crate::algorithms::direct_access::Trace;
use crate::formula::assumptions::any_contradicts;
use crate::formula::assumptions::Assumptions;
use crate::formula::decision_dnnf::edge_numbers;
use crate::formula::decision_dnnf::DecisionDNNF;
use crate::formula::decision_dnnf::Formula;
use crate::formula::decision_dnnf::Node;
use crate::formula::decision_dnnf::NodeIndex;
use crate::formula::decision_dnnf::NodeModel;
use crate::formula::free_variables::FreeVariables;
use crate::formula::literal::Literal;
use crate::numbers::integer::integer_from_usize;
use crate::numbers::integer::integer_lt;
use crate::numbers::integer::integer_sub_assign;
use crate::numbers::integer::integer_value;
use rug::Integer;
use std::rc::Rc;
use vstd::prelude::*;

verus! {

/// The model after the polarities of the free variables `free_vars` were
/// stepped to the next combination, with whether there is one. The
/// polarities are read as a binary number in which the last variable is the
/// lowest digit and a positive literal is a digit 1: the number grows by
/// one, and where all the literals were positive they all become negative
/// and there is no next combination.
pub open spec fn advance_free(model: Seq<Option<Literal>>, free_vars: Seq<Literal>) -> (
    Seq<Option<Literal>>,
    bool,
)
    decreases free_vars.len(),
{
    if free_vars.len() == 0 {
        (model, false)
    } else {
        let v = free_vars.last();
        if model[v.var() as int] == Some(Literal::of(v.var(), true)) {
            advance_free(
                model.update(v.var() as int, Some(Literal::of(v.var(), false))),
                free_vars.drop_last(),
            )
        } else {
            (model.update(v.var() as int, Some(Literal::of(v.var(), true))), true)
        }
    }
}

/// The state of an enumeration: the current model with the branches that it
/// takes, whether the first model was asked for, and whether the last
/// request gave a model.
pub struct EnumState {
    pub trace: Trace,
    pub started: bool,
    pub has_model: bool,
}

impl Formula {
    /// The first path from node `n`: the model and the choices after the
    /// walk took the first branch that leads to the true node at each
    /// disjunction node, with whether there is such a path.
    pub open spec fn first_path(self, q: Query, n: int, t: Trace) -> (Trace, bool)
        decreases self.rank()[n], 1nat, 0nat,
        when self.wf() && 0 <= n < self.nodes.len()
    {
        let t0 = Trace { model: t.model, graph: t.graph.update(n, 0) };
        match self.nodes[n] {
            NodeModel::True => (t0, true),
            NodeModel::False => (t0, false),
            NodeModel::And(_) => self.first_and(q, n, self.edge_list(n).len() as int, t0),
            NodeModel::Or(_) => self.first_or(q, n, 0, t0),
        }
    }

    /// The first path through the first `i` edges of the conjunction node
    /// `n`.
    pub open spec fn first_and(self, q: Query, n: int, i: int, t: Trace) -> (Trace, bool)
        decreases self.rank()[n], 0nat, i + 1,
        when self.wf() && 0 <= n < self.nodes.len() && 0 <= i <= self.edge_list(n).len()
    {
        if i == 0 {
            (t, true)
        } else {
            let before = self.first_and(q, n, i - 1, t);
            if !before.1 {
                before
            } else {
                self.enter_edge(q, n, i - 1, before.0)
            }
        }
    }

    /// The walk through the `i`-th edge of the conjunction node `n`: its
    /// literals are written, unless one of them contradicts an assumption,
    /// and the first path from its target is taken.
    pub open spec fn enter_edge(self, q: Query, n: int, i: int, t: Trace) -> (Trace, bool)
        decreases self.rank()[n], 0nat, 0nat,
        when self.wf() && 0 <= n < self.nodes.len() && 0 <= i < self.edge_list(n).len()
    {
        proof {
            self.lemma_child(n, i);
        }
        if any_contradicts(q.assumptions, self.edge(n, i).propagated) {
            (t, false)
        } else {
            self.first_path(
                q,
                self.child(n, i),
                Trace { model: write_all(t.model, self.edge(n, i).propagated), graph: t.graph },
            )
        }
    }

    /// The walk into the `i`-th branch of the disjunction node `n`: the
    /// branch is chosen, its free variables are made negative (or lose their
    /// literal in partial mode), its literals are written, unless one of them
    /// contradicts an assumption, and the first path from its target is
    /// taken.
    pub open spec fn enter_branch(self, q: Query, n: int, i: int, t: Trace) -> (Trace, bool)
        decreases self.rank()[n], 0nat, 0nat,
        when self.wf() && 0 <= n < self.nodes.len() && 0 <= i < self.edge_list(n).len()
    {
        proof {
            self.lemma_child(n, i);
        }
        let chosen = Trace { model: t.model, graph: t.graph.update(n, i as nat) };
        if any_contradicts(q.assumptions, self.edge(n, i).propagated) {
            (chosen, false)
        } else {
            self.first_path(
                q,
                self.child(n, i),
                Trace {
                    model: write_all(
                        write_free(t.model, 0, self.open_vars(q, n, i), q.partial),
                        self.edge(n, i).propagated,
                    ),
                    graph: chosen.graph,
                },
            )
        }
    }

    /// The first path through a branch of the disjunction node `n`, from the
    /// `i`-th on.
    pub open spec fn first_or(self, q: Query, n: int, i: int, t: Trace) -> (Trace, bool)
        decreases self.rank()[n], 0nat, self.edge_list(n).len() - i + 1,
        when self.wf() && 0 <= n < self.nodes.len() && 0 <= i <= self.edge_list(n).len()
    {
        if i >= self.edge_list(n).len() {
            (t, false)
        } else {
            let entered = self.enter_branch(q, n, i, t);
            if entered.1 {
                entered
            } else {
                self.first_or(q, n, i + 1, entered.0)
            }
        }
    }

    /// The next path from node `n`: the model and the choices after the
    /// walk moved to the path that follows the current one, with whether
    /// there is such a path.
    pub open spec fn next_path(self, q: Query, n: int, t: Trace) -> (Trace, bool)
        decreases self.rank()[n], 2nat, 0nat,
        when self.wf() && 0 <= n < self.nodes.len()
    {
        match self.nodes[n] {
            NodeModel::True => (t, false),
            NodeModel::False => (t, false),
            NodeModel::And(_) => self.next_and(q, n, self.edge_list(n).len() as int, t),
            NodeModel::Or(_) => {
                let i = t.graph[n] as int;
                if !(0 <= n < t.graph.len()) || i >= self.edge_list(n).len() {
                    (t, false)
                } else {
                    proof {
                        self.lemma_child(n, i);
                    }
                    let stepped = if q.partial {
                        (t.model, false)
                    } else {
                        advance_free(t.model, self.open_vars(q, n, i))
                    };
                    if stepped.1 {
                        (Trace { model: stepped.0, graph: t.graph }, true)
                    } else {
                        let below = self.next_path(
                            q,
                            self.child(n, i),
                            Trace {
                                model: write_all(stepped.0, self.edge(n, i).propagated),
                                graph: t.graph,
                            },
                        );
                        if below.1 {
                            below
                        } else {
                            self.first_or(q, n, i + 1, below.0)
                        }
                    }
                }
            },
        }
    }

    /// The next path through the first `i` edges of the conjunction node
    /// `n`, taken from the last to the first: the last child that has a next
    /// path moves to it, and the children after it go back to their first
    /// path.
    pub open spec fn next_and(self, q: Query, n: int, i: int, t: Trace) -> (Trace, bool)
        decreases self.rank()[n], 0nat, i,
        when self.wf() && 0 <= n < self.nodes.len() && 0 <= i <= self.edge_list(n).len()
    {
        if i == 0 {
            (t, false)
        } else {
            proof {
                self.lemma_child(n, i - 1);
            }
            let moved = self.next_path(q, self.child(n, i - 1), t);
            if moved.1 {
                moved
            } else {
                self.next_and(q, n, i - 1, self.first_path(q, self.child(n, i - 1), moved.0).0)
            }
        }
    }

    /// The state of an enumeration that has not begun: the model holds the
    /// assumed literals and the negative literals of the free variables of
    /// the root (nothing for them in partial mode).
    pub open spec fn initial_state(self, q: Query) -> EnumState {
        EnumState {
            trace: Trace {
                model: write_free(
                    assumed_model(q.assumptions),
                    0,
                    self.open_root_vars(q),
                    q.partial,
                ),
                graph: Seq::new(self.nodes.len(), |n: int| 0nat),
            },
            started: false,
            has_model: true,
        }
    }

    /// The state of an enumeration before the model of index `k` is asked
    /// for: that of an enumeration that has not begun for the first index,
    /// else the state that holds the model of the index before `k`, with
    /// the branches that it takes.
    pub open spec fn state_before(self, q: Query, k: nat) -> EnumState {
        if k == 0 {
            self.initial_state(q)
        } else {
            EnumState { trace: self.trace_at(q, (k - 1) as nat), started: true, has_model: true }
        }
    }

    /// The state of an enumeration after one more model was asked for.
    pub open spec fn next_state(self, q: Query, s: EnumState) -> EnumState {
        if !s.started {
            let first = self.first_path(q, 0, s.trace);
            EnumState { trace: first.0, started: true, has_model: first.1 }
        } else if !s.has_model {
            s
        } else {
            let stepped = if q.partial {
                (s.trace.model, false)
            } else {
                advance_free(s.trace.model, self.open_root_vars(q))
            };
            if stepped.1 {
                EnumState {
                    trace: Trace { model: stepped.0, graph: s.trace.graph },
                    started: true,
                    has_model: true,
                }
            } else {
                let moved = self.next_path(
                    q,
                    0,
                    Trace { model: stepped.0, graph: s.trace.graph },
                );
                EnumState { trace: moved.0, started: true, has_model: moved.1 }
            }
        }
    }
}

/// The free variables `free_vars` are those that the query `q` leaves open
/// in the formula `f`.
pub open spec fn holds_open_vars(free_vars: FreeVariables, f: Formula, q: Query) -> bool {
    &&& free_vars.wf()
    &&& free_vars.root() == f.open_root_vars(q)
    &&& free_vars.or_lists().len() == f.nodes.len()
    &&& forall|n: int|
        0 <= n < f.nodes.len() && f.nodes[n] is Or ==> (#[trigger] free_vars.or_lists()[n]).len()
            == f.edge_list(n).len()
    &&& forall|n: int, i: int|
        0 <= n < f.nodes.len() && f.nodes[n] is Or && 0 <= i < f.edge_list(n).len() ==> (
        #[trigger] free_vars.or_lists()[n][i]) == f.open_vars(q, n, i)
}

/// The free variables that a query leaves open speak of variables of the
/// formula.
pub proof fn lemma_open_vars_in_range(f: Formula, q: Query)
    requires
        f.wf(),
    ensures
        vars_below(f.open_root_vars(q), f.n_vars),
        forall|n: int, i: int|
            0 <= n < f.nodes.len() && 0 <= i < f.edge_list(n).len() ==> vars_below(
                #[trigger] f.open_vars(q, n, i),
                f.n_vars,
            ),
{
    crate::formula::involved_vars::lemma_literals_of_members(
        crate::formula::involved_vars::complement(f.involved(0), f.n_vars),
        0,
        f.n_vars,
        false,
    );
    lemma_unassumed_below(f.root_free_vars(), q.assumptions, f.n_vars);
    assert forall|n: int, i: int|
        0 <= n < f.nodes.len() && 0 <= i < f.edge_list(n).len() implies vars_below(
        #[trigger] f.open_vars(q, n, i),
        f.n_vars,
    ) by {
        crate::formula::involved_vars::lemma_literals_of_members(
            f.or_free_set(n, i),
            0,
            f.n_vars,
            false,
        );
        lemma_unassumed_below(f.or_free_vars(n, i), q.assumptions, f.n_vars);
    }
}

/// The literals of the edges of a well-formed formula speak of its
/// variables.
pub proof fn lemma_propagated_in_range(f: Formula, n: int, i: int)
    requires
        f.wf(),
        0 <= n < f.nodes.len(),
        0 <= i < f.edge_list(n).len(),
    ensures
        vars_below(f.edge(n, i).propagated, f.n_vars),
{
    let p = f.edge(n, i).propagated;
    assert forall|j: int| 0 <= j < p.len() implies (#[trigger] p[j]).var() < f.n_vars by {
        assert(f.edge_list(n)[i] < f.edges.len());
        assert(f.edges[f.edge_list(n)[i] as int].propagated[j].var() < f.n_vars);
    }
}

/// Stepping the polarities of free variables keeps the length of a model.
pub proof fn lemma_advance_free_len(model: Seq<Option<Literal>>, free_vars: Seq<Literal>)
    requires
        vars_below(free_vars, model.len()),
    ensures
        advance_free(model, free_vars).0.len() == model.len(),
    decreases free_vars.len(),
{
    if free_vars.len() > 0 {
        let v = free_vars.last();
        lemma_advance_free_len(
            model.update(v.var() as int, Some(Literal::of(v.var(), false))),
            free_vars.drop_last(),
        );
    }
}

/// Steps the polarities that `model` gives to the free variables
/// `interpretation` to the next combination, and tells whether there is
/// one. Nothing is done where free variables are eluded.
#[verifier::loop_isolation(false)]
pub fn next_free_vars_interpretation(
    model: &mut Vec<Option<Literal>>,
    interpretation: &[Literal],
    elude_free_vars: bool,
) -> (r: bool)
    requires
        vars_below(interpretation@, old(model)@.len()),
        2 * old(model)@.len() <= usize::MAX + 1,
    ensures
        final(model)@.len() == old(model)@.len(),
        (final(model)@, r) == if elude_free_vars {
            (old(model)@, false)
        } else {
            advance_free(old(model)@, interpretation@)
        },
{
    if elude_free_vars {
        return false;
    }
    let ghost start = model@;
    let mut i: usize = interpretation.len();
    proof {
        assert(interpretation@.take(i as int) =~= interpretation@);
    }
    while i > 0
        invariant
            i <= interpretation.len(),
            vars_below(interpretation@, start.len()),
            2 * start.len() <= usize::MAX + 1,
            model@.len() == start.len(),
            advance_free(start, interpretation@) == advance_free(
                model@,
                interpretation@.take(i as int),
            ),
        decreases i,
    {
        let ghost current = interpretation@.take(i as int);
        let ghost before = model@;
        let var = interpretation[i - 1].var_index();
        proof {
            assert(current.last() == interpretation@[i - 1]);
            assert(current.drop_last() =~= interpretation@.take(i - 1));
        }
        let positive = Literal::new(var, true);
        let is_positive = match model[var] {
            Some(l) => l == positive,
            None => false,
        };
        proof {
            let v = current.last();
            assert(advance_free(before, current) == if before[v.var() as int] == Some(
                Literal::of(v.var(), true),
            ) {
                advance_free(
                    before.update(v.var() as int, Some(Literal::of(v.var(), false))),
                    current.drop_last(),
                )
            } else {
                (before.update(v.var() as int, Some(Literal::of(v.var(), true))), true)
            });
        }
        if is_positive {
            model.set(var, Some(Literal::new(var, false)));
            i = i - 1;
        } else {
            model.set(var, Some(positive));
            return true;
        }
    }
    proof {
        assert(interpretation@.take(0) =~= Seq::<Literal>::empty());
    }
    false
}

/// What a walk of the graph needs: the formula, the free variables that the
/// assumptions leave open, the assumptions, and whether free variables are
/// eluded.
struct Walker<'a> {
    ddnnf: &'a DecisionDNNF,
    free_vars: &'a FreeVariables,
    assumptions: Option<&'a Assumptions>,
    elude_free_vars: bool,
}

impl<'a> Walker<'a> {
    spec fn formula(&self) -> Formula {
        self.ddnnf@
    }

    spec fn query(&self) -> Query {
        Query {
            assumptions: match self.assumptions {
                Some(a) => a@,
                None => no_assumption(self.ddnnf@.n_vars),
            },
            partial: self.elude_free_vars,
        }
    }

    spec fn wf(&self) -> bool {
        &&& self.ddnnf@.wf()
        &&& self.query().assumptions.len() == self.ddnnf@.n_vars
        &&& holds_open_vars(*self.free_vars, self.ddnnf@, self.query())
    }

    /// Tells whether a literal of `propagated` contradicts an assumption.
    fn conflicts(&self, propagated: &[Literal]) -> (b: bool)
        requires
            self.wf(),
            vars_below(propagated@, self.formula().n_vars),
        ensures
            b == any_contradicts(self.query().assumptions, propagated@),
    {
        match self.assumptions {
            Some(a) => a.contradicts_any(propagated),
            None => {
                proof {
                    crate::algorithms::counting::lemma_no_assumption_contradicts(
                        self.ddnnf@.n_vars,
                        propagated@,
                    );
                }
                false
            },
        }
    }

    /// Takes the first path from the node `from`.
    #[verifier::loop_isolation(false)]
    fn first_path_from(
        &self,
        model: &mut Vec<Option<Literal>>,
        or_edge_indices: &mut Vec<usize>,
        from: NodeIndex,
    ) -> (r: bool)
        requires
            self.wf(),
            from.0 < self.formula().nodes.len(),
            old(model)@.len() == self.formula().n_vars,
            old(or_edge_indices)@.len() == self.formula().nodes.len(),
        ensures
            final(model)@.len() == old(model)@.len(),
            final(or_edge_indices)@.len() == old(or_edge_indices)@.len(),
            (Trace { model: final(model)@, graph: graph_view(final(or_edge_indices)@) }, r)
                == self.formula().first_path(
                self.query(),
                from.0 as int,
                Trace { model: old(model)@, graph: graph_view(old(or_edge_indices)@) },
            ),
        decreases self.formula().rank()[from.0 as int], 1nat,
    {
        let ghost f = self.formula();
        let ghost q = self.query();
        let ghost n = from.0 as int;
        let ghost t_in = Trace { model: model@, graph: graph_view(or_edge_indices@) };
        or_edge_indices.set(from.0, 0);
        let ghost t0 = Trace { model: model@, graph: graph_view(or_edge_indices@) };
        proof {
            assert(t0.graph =~= t_in.graph.update(n, 0));
        }
        match self.ddnnf.node(from) {
            Node::And(edges) => {
                let mut i: usize = 0;
                proof {
                    assert(f.first_and(q, n, 0, t0) == (t0, true));
                }
                while i < edges.len()
                    invariant
                        i <= edges.len(),
                        edge_numbers(edges@) == f.edge_list(n),
                        model@.len() == f.n_vars,
                        or_edge_indices@.len() == f.nodes.len(),
                        f.first_and(q, n, i as int, t0) == (
                            Trace { model: model@, graph: graph_view(or_edge_indices@) },
                            true,
                        ),
                    decreases edges.len() - i,
                {
                    let ghost t = Trace { model: model@, graph: graph_view(or_edge_indices@) };
                    proof {
                        f.lemma_child(n, i as int);
                        lemma_propagated_in_range(f, n, i as int);
                        assert(f.first_and(q, n, i + 1, t0) == f.enter_edge(q, n, i as int, t));
                        assert(f.enter_edge(q, n, i as int, t) == if any_contradicts(
                            q.assumptions,
                            f.edge(n, i as int).propagated,
                        ) {
                            (t, false)
                        } else {
                            f.first_path(
                                q,
                                f.child(n, i as int),
                                Trace {
                                    model: write_all(t.model, f.edge(n, i as int).propagated),
                                    graph: t.graph,
                                },
                            )
                        });
                    }
                    let edge = self.ddnnf.edge(edges[i]);
                    let entered = if self.conflicts(edge.propagated()) {
                        false
                    } else {
                        write_literals(model, edge.propagated());
                        self.first_path_from(model, or_edge_indices, edge.target())
                    };
                    if !entered {
                        proof {
                            self.lemma_first_and_fails(n, i + 1, f.edge_list(n).len() as int, t0);
                            assert(f.first_path(q, n, t_in) == f.first_and(
                                q,
                                n,
                                f.edge_list(n).len() as int,
                                t0,
                            ));
                        }
                        return false;
                    }
                    i = i + 1;
                }
                proof {
                    assert(f.first_path(q, n, t_in) == f.first_and(
                        q,
                        n,
                        f.edge_list(n).len() as int,
                        t0,
                    ));
                }
                true
            },
            Node::Or(edges) => {
                let mut i: usize = 0;
                while i < edges.len()
                    invariant
                        i <= edges.len(),
                        edge_numbers(edges@) == f.edge_list(n),
                        model@.len() == f.n_vars,
                        or_edge_indices@.len() == f.nodes.len(),
                        f.first_or(q, n, 0, t0) == f.first_or(
                            q,
                            n,
                            i as int,
                            Trace { model: model@, graph: graph_view(or_edge_indices@) },
                        ),
                    decreases edges.len() - i,
                {
                    let ghost t = Trace { model: model@, graph: graph_view(or_edge_indices@) };
                    proof {
                        assert(f.first_or(q, n, i as int, t) == if f.enter_branch(
                            q,
                            n,
                            i as int,
                            t,
                        ).1 {
                            f.enter_branch(q, n, i as int, t)
                        } else {
                            f.first_or(q, n, i + 1, f.enter_branch(q, n, i as int, t).0)
                        });
                    }
                    if self.update_or_edge(model, or_edge_indices, from, i) {
                        proof {
                            assert(f.first_path(q, n, t_in) == f.first_or(q, n, 0, t0));
                        }
                        return true;
                    }
                    i = i + 1;
                }
                proof {
                    assert(f.first_path(q, n, t_in) == f.first_or(q, n, 0, t0));
                    let t = Trace { model: model@, graph: graph_view(or_edge_indices@) };
                    assert(f.first_or(q, n, i as int, t) == (t, false));
                }
                false
            },
            Node::True => true,
            Node::False => false,
        }
    }

    /// Once the walk fails through one of the first edges of a conjunction
    /// node, it fails through the node, in the same state.
    proof fn lemma_first_and_fails(&self, n: int, i: int, j: int, t: Trace)
        requires
            self.formula().wf(),
            0 <= n < self.formula().nodes.len(),
            0 <= i <= j <= self.formula().edge_list(n).len(),
            !self.formula().first_and(self.query(), n, i, t).1,
        ensures
            self.formula().first_and(self.query(), n, j, t) == self.formula().first_and(
                self.query(),
                n,
                i,
                t,
            ),
        decreases j - i,
    {
        if i < j {
            self.lemma_first_and_fails(n, i, j - 1, t);
            let f = self.formula();
            let q = self.query();
            assert(f.first_and(q, n, j, t) == if !f.first_and(q, n, j - 1, t).1 {
                f.first_and(q, n, j - 1, t)
            } else {
                f.enter_edge(q, n, j - 1, f.first_and(q, n, j - 1, t).0)
            });
        }
    }

    /// Chooses the branch `child_index` of the disjunction node
    /// `or_node_index` and takes the first path through it.
    fn update_or_edge(
        &self,
        model: &mut Vec<Option<Literal>>,
        or_edge_indices: &mut Vec<usize>,
        or_node_index: NodeIndex,
        child_index: usize,
    ) -> (r: bool)
        requires
            self.wf(),
            or_node_index.0 < self.formula().nodes.len(),
            self.formula().nodes[or_node_index.0 as int] is Or,
            child_index < self.formula().edge_list(or_node_index.0 as int).len(),
            old(model)@.len() == self.formula().n_vars,
            old(or_edge_indices)@.len() == self.formula().nodes.len(),
        ensures
            final(model)@.len() == old(model)@.len(),
            final(or_edge_indices)@.len() == old(or_edge_indices)@.len(),
            (Trace { model: final(model)@, graph: graph_view(final(or_edge_indices)@) }, r)
                == self.formula().enter_branch(
                self.query(),
                or_node_index.0 as int,
                child_index as int,
                Trace { model: old(model)@, graph: graph_view(old(or_edge_indices)@) },
            ),
        decreases self.formula().rank()[or_node_index.0 as int], 0nat,
    {
        let ghost f = self.formula();
        let ghost q = self.query();
        let ghost n = or_node_index.0 as int;
        let ghost i = child_index as int;
        let ghost t = Trace { model: model@, graph: graph_view(or_edge_indices@) };
        proof {
            f.lemma_child(n, i);
            lemma_propagated_in_range(f, n, i);
            lemma_open_vars_in_range(f, q);
            lemma_write_free_len(t.model, 0, f.open_vars(q, n, i), q.partial);
            assert(f.enter_branch(q, n, i, t) == if any_contradicts(
                q.assumptions,
                f.edge(n, i).propagated,
            ) {
                (Trace { model: t.model, graph: t.graph.update(n, i as nat) }, false)
            } else {
                f.first_path(
                    q,
                    f.child(n, i),
                    Trace {
                        model: write_all(
                            write_free(t.model, 0, f.open_vars(q, n, i), q.partial),
                            f.edge(n, i).propagated,
                        ),
                        graph: t.graph.update(n, i as nat),
                    },
                )
            });
        }
        or_edge_indices.set(or_node_index.0, child_index);
        proof {
            assert(graph_view(or_edge_indices@) =~= t.graph.update(n, i as nat));
        }
        let edges = self.ddnnf.node(or_node_index).edge_indices();
        let edge = self.ddnnf.edge(edges[child_index]);
        if self.conflicts(edge.propagated()) {
            return false;
        }
        let or_free_vars = self.free_vars.or_free_vars().child_free_vars(
            or_node_index.0,
            child_index,
        );
        let mut zero = integer_from_usize(0);
        update_model_with_free_vars(model, &mut zero, or_free_vars, self.elude_free_vars);
        write_literals(model, edge.propagated());
        self.first_path_from(model, or_edge_indices, edge.target())
    }

    /// Moves to the next path from the node `from`.
    #[verifier::loop_isolation(false)]
    fn next_path_from(
        &self,
        model: &mut Vec<Option<Literal>>,
        or_edge_indices: &mut Vec<usize>,
        from: NodeIndex,
    ) -> (r: bool)
        requires
            self.wf(),
            from.0 < self.formula().nodes.len(),
            old(model)@.len() == self.formula().n_vars,
            old(or_edge_indices)@.len() == self.formula().nodes.len(),
        ensures
            final(model)@.len() == old(model)@.len(),
            final(or_edge_indices)@.len() == old(or_edge_indices)@.len(),
            (Trace { model: final(model)@, graph: graph_view(final(or_edge_indices)@) }, r)
                == self.formula().next_path(
                self.query(),
                from.0 as int,
                Trace { model: old(model)@, graph: graph_view(old(or_edge_indices)@) },
            ),
        decreases self.formula().rank()[from.0 as int], 2nat,
    {
        let ghost f = self.formula();
        let ghost q = self.query();
        let ghost n = from.0 as int;
        let ghost t_in = Trace { model: model@, graph: graph_view(or_edge_indices@) };
        match self.ddnnf.node(from) {
            Node::And(edges) => {
                let mut i: usize = edges.len();
                proof {
                    assert(f.next_path(q, n, t_in) == f.next_and(
                        q,
                        n,
                        f.edge_list(n).len() as int,
                        t_in,
                    ));
                }
                while i > 0
                    invariant
                        i <= edges.len(),
                        edge_numbers(edges@) == f.edge_list(n),
                        model@.len() == f.n_vars,
                        or_edge_indices@.len() == f.nodes.len(),
                        f.next_path(q, n, t_in) == f.next_and(
                            q,
                            n,
                            i as int,
                            Trace { model: model@, graph: graph_view(or_edge_indices@) },
                        ),
                    decreases i,
                {
                    let ghost t = Trace { model: model@, graph: graph_view(or_edge_indices@) };
                    proof {
                        f.lemma_child(n, i - 1);
                        assert(f.next_and(q, n, i as int, t) == if f.next_path(
                            q,
                            f.child(n, i - 1),
                            t,
                        ).1 {
                            f.next_path(q, f.child(n, i - 1), t)
                        } else {
                            f.next_and(
                                q,
                                n,
                                i - 1,
                                f.first_path(
                                    q,
                                    f.child(n, i - 1),
                                    f.next_path(q, f.child(n, i - 1), t).0,
                                ).0,
                            )
                        });
                    }
                    let edge = self.ddnnf.edge(edges[i - 1]);
                    if self.next_path_from(model, or_edge_indices, edge.target()) {
                        return true;
                    }
                    let _ = self.first_path_from(model, or_edge_indices, edge.target());
                    i = i - 1;
                }
                proof {
                    let t = Trace { model: model@, graph: graph_view(or_edge_indices@) };
                    assert(f.next_and(q, n, 0, t) == (t, false));
                }
                false
            },
            Node::Or(edges) => {
                let child_index = or_edge_indices[from.0];
                proof {
                    assert(t_in.graph[n] == child_index);
                }
                if child_index >= edges.len() {
                    return false;
                }
                let ghost i = child_index as int;
                proof {
                    f.lemma_child(n, i);
                    lemma_propagated_in_range(f, n, i);
                    lemma_open_vars_in_range(f, q);
                    lemma_advance_free_len(t_in.model, f.open_vars(q, n, i));
                }
                let or_free_vars = self.free_vars.or_free_vars().child_free_vars(
                    from.0,
                    child_index,
                );
                if next_free_vars_interpretation(model, or_free_vars, self.elude_free_vars) {
                    return true;
                }
                let edge = self.ddnnf.edge(edges[child_index]);
                write_literals(model, edge.propagated());
                if self.next_path_from(model, or_edge_indices, edge.target()) {
                    return true;
                }
                let mut j: usize = child_index + 1;
                while j < edges.len()
                    invariant
                        child_index < j <= edges.len(),
                        edge_numbers(edges@) == f.edge_list(n),
                        model@.len() == f.n_vars,
                        or_edge_indices@.len() == f.nodes.len(),
                        f.next_path(q, n, t_in) == f.first_or(
                            q,
                            n,
                            j as int,
                            Trace { model: model@, graph: graph_view(or_edge_indices@) },
                        ),
                    decreases edges.len() - j,
                {
                    let ghost t = Trace { model: model@, graph: graph_view(or_edge_indices@) };
                    proof {
                        assert(f.first_or(q, n, j as int, t) == if f.enter_branch(
                            q,
                            n,
                            j as int,
                            t,
                        ).1 {
                            f.enter_branch(q, n, j as int, t)
                        } else {
                            f.first_or(q, n, j + 1, f.enter_branch(q, n, j as int, t).0)
                        });
                    }
                    if self.update_or_edge(model, or_edge_indices, from, j) {
                        return true;
                    }
                    j = j + 1;
                }
                proof {
                    let t = Trace { model: model@, graph: graph_view(or_edge_indices@) };
                    assert(f.first_or(q, n, j as int, t) == (t, false));
                }
                false
            },
            Node::True => false,
            Node::False => false,
        }
    }
}

/// `Rc::clone`: another handle on the same value.
#[verifier::external_body]
fn share(assumptions: &Rc<Assumptions>) -> (r: Rc<Assumptions>)
    ensures
        r == *assumptions,
{
    Rc::clone(assumptions)
}

/// A structure used to enumerate the models of a [`DecisionDNNF`].
///
/// After building an enumerator with [`new`](Self::new), call
/// [`compute_next_model`](Self::compute_next_model) until it returns nothing.
/// Each call before that returns a model.
///
/// Where free variables are eluded, a variable that a path leaves free has
/// no literal in the model that stands for the path, and the path gives one
/// model in place of one for each combination of polarities of its free
/// variables.
pub struct ModelEnumerator<'a> {
    ddnnf: &'a DecisionDNNF,
    assumptions: Option<Rc<Assumptions>>,
    free_vars: FreeVariables,
    or_edge_indices: Vec<usize>,
    first_computed: bool,
    model: Vec<Option<Literal>>,
    has_model: bool,
    elude_free_vars: bool,
}

impl<'a> ModelEnumerator<'a> {
    /// The formula whose models are enumerated.
    pub closed spec fn formula(&self) -> Formula {
        self.ddnnf@
    }

    /// What the models are taken under: the assumptions, and the partial
    /// mode where free variables are eluded.
    pub closed spec fn query(&self) -> Query {
        Query {
            assumptions: match self.assumptions {
                Some(a) => a@,
                None => no_assumption(self.ddnnf@.n_vars),
            },
            partial: self.elude_free_vars,
        }
    }

    /// The assumptions that were set, if any.
    pub closed spec fn assumed(&self) -> Option<Rc<Assumptions>> {
        self.assumptions
    }

    /// The state of the enumeration.
    pub closed spec fn state(&self) -> EnumState {
        EnumState {
            trace: Trace { model: self.model@, graph: graph_view(self.or_edge_indices@) },
            started: self.first_computed,
            has_model: self.has_model,
        }
    }

    /// The enumerator is consistent with its formula.
    pub closed spec fn wf(&self) -> bool {
        &&& self.ddnnf@.wf()
        &&& self.query().assumptions.len() == self.ddnnf@.n_vars
        &&& holds_open_vars(self.free_vars, self.ddnnf@, self.query())
        &&& self.model@.len() == self.ddnnf@.n_vars
        &&& self.or_edge_indices@.len() == self.ddnnf@.nodes.len()
    }

    /// Builds a new model enumerator for a [`DecisionDNNF`].
    ///
    /// The second parameter sets whether free variables are eluded from the
    /// models.
    #[must_use]
    pub fn new(ddnnf: &'a DecisionDNNF, elude_free_vars: bool) -> (r: Self)
        requires
            ddnnf@.wf(),
        ensures
            r.wf(),
            r.formula() == ddnnf@,
            r.query() == (Query {
                assumptions: no_assumption(ddnnf@.n_vars),
                partial: elude_free_vars,
            }),
            r.state() == ddnnf@.initial_state(r.query()),
            r.assumed() is None,
    {
        let none = Assumptions::new(ddnnf.n_vars(), Vec::new());
        proof {
            assert(none@ =~= no_assumption(ddnnf@.n_vars));
        }
        let free_vars = open_free_vars(ddnnf, &none, Ghost(elude_free_vars));
        let mut r = Self {
            ddnnf,
            assumptions: None,
            free_vars,
            or_edge_indices: Vec::new(),
            first_computed: false,
            model: Vec::new(),
            has_model: true,
            elude_free_vars,
        };
        r.reset_state();
        r
    }

    /// Sets the assumptions under which the models are enumerated, and
    /// starts the enumeration anew.
    pub fn set_assumptions(&mut self, assumptions: Rc<Assumptions>)
        requires
            old(self).wf(),
            assumptions@.len() == old(self).formula().n_vars,
        ensures
            final(self).wf(),
            final(self).formula() == old(self).formula(),
            final(self).query() == (Query {
                assumptions: assumptions@,
                partial: old(self).query().partial,
            }),
            final(self).state() == final(self).formula().initial_state(final(self).query()),
            final(self).assumed() == Some(assumptions),
    {
        self.free_vars = open_free_vars(self.ddnnf, &*assumptions, Ghost(self.elude_free_vars));
        self.assumptions = Some(assumptions);
        self.reset_state();
    }

    /// Starts the enumeration anew.
    pub fn reset(&mut self)
        requires
            old(self).wf(),
        ensures
            final(self).wf(),
            final(self).formula() == old(self).formula(),
            final(self).query() == old(self).query(),
            final(self).state() == final(self).formula().initial_state(final(self).query()),
            final(self).assumed() == old(self).assumed(),
    {
        self.reset_state();
    }

    /// Puts the enumeration in the state that it has before its first
    /// model.
    fn reset_state(&mut self)
        requires
            old(self).ddnnf@.wf(),
            old(self).query().assumptions.len() == old(self).ddnnf@.n_vars,
            holds_open_vars(old(self).free_vars, old(self).ddnnf@, old(self).query()),
        ensures
            final(self).wf(),
            final(self).ddnnf == old(self).ddnnf,
            final(self).assumptions == old(self).assumptions,
            final(self).elude_free_vars == old(self).elude_free_vars,
            final(self).state() == final(self).formula().initial_state(final(self).query()),
    {
        let ghost f = self.ddnnf@;
        let ghost q = self.query();
        let assumptions: Option<&Assumptions> = match &self.assumptions {
            Some(a) => Some(&**a),
            None => None,
        };
        let mut model = new_model(assumptions, self.ddnnf.n_vars());
        proof {
            lemma_open_vars_in_range(f, q);
        }
        let mut zero = integer_from_usize(0);
        update_model_with_free_vars(
            &mut model,
            &mut zero,
            self.free_vars.root_free_vars(),
            self.elude_free_vars,
        );
        self.model = model;
        self.or_edge_indices = new_graph(self.ddnnf.n_nodes());
        self.first_computed = false;
        self.has_model = true;
    }

    /// Puts the enumerator, thanks to a [`DirectAccessEngine`], in the
    /// state in which it is after it has enumerated the models before the
    /// one with the given index: the next model that it computes is the
    /// model with this index.
    ///
    /// Where the index is that of a model, the model that the enumerator
    /// holds is returned: the model with the index before the given one, or,
    /// for the first index, what an enumerator holds before its first
    /// model. Where the index is that of no model, nothing is returned and
    /// the enumeration is over.
    ///
    /// The engine must speak of the same formula, under the same
    /// assumptions and in the same mode, as this enumerator.
    pub fn jump_to(&mut self, direct_access_engine: &DirectAccessEngine<'_>, model_id: Integer) -> (r:
        Option<&[Option<Literal>]>)
        requires
            old(self).wf(),
            direct_access_engine.wf(),
            direct_access_engine.formula() == old(self).formula(),
            direct_access_engine.query() == old(self).query(),
        ensures
            final(self).wf(),
            final(self).formula() == old(self).formula(),
            final(self).query() == old(self).query(),
            final(self).assumed() == old(self).assumed(),
            0 <= integer_value(model_id) < old(self).formula().global_count(old(self).query())
                ==> r is Some && final(self).state() == old(self).formula().state_before(
                old(self).query(),
                integer_value(model_id) as nat,
            ) && r->0@ == final(self).state().trace.model,
            !(0 <= integer_value(model_id) < old(self).formula().global_count(old(self).query()))
                ==> r is None && final(self).state() == (EnumState {
                started: true,
                has_model: false,
                ..old(self).state()
            }),
    {
        let zero = integer_from_usize(0);
        if integer_lt(&model_id, &zero) || !integer_lt(&model_id, direct_access_engine.n_models()) {
            self.first_computed = true;
            self.has_model = false;
            return None;
        }
        if !integer_lt(&zero, &model_id) {
            self.reset_state();
            return Some(self.model.as_slice());
        }
        let mut before = model_id;
        let one = integer_from_usize(1);
        integer_sub_assign(&mut before, &one);
        let opt_model = direct_access_engine.model_with_graph(before);
        match opt_model {
            Some((model, or_edge_indices)) => {
                self.model = model;
                self.has_model = true;
                self.or_edge_indices = or_edge_indices;
                self.first_computed = true;
                Some(self.model.as_slice())
            },
            None => {
                self.first_computed = true;
                self.has_model = false;
                None
            },
        }
    }

    /// Computes the next model and returns it, or nothing once all the
    /// models have been returned.
    pub fn compute_next_model(&mut self) -> (r: Option<&[Option<Literal>]>)
        requires
            old(self).wf(),
        ensures
            final(self).wf(),
            final(self).formula() == old(self).formula(),
            final(self).query() == old(self).query(),
            final(self).assumed() == old(self).assumed(),
            final(self).state() == old(self).formula().next_state(
                old(self).query(),
                old(self).state(),
            ),
            r is Some <==> final(self).state().has_model,
            r is Some ==> r->0@ == final(self).state().trace.model,
    {
        if !self.first_computed {
            return self.compute_first_model();
        }
        if !self.has_model {
            return None;
        }
        proof {
            lemma_open_vars_in_range(self.ddnnf@, self.query());
            lemma_advance_free_len(self.model@, self.ddnnf@.open_root_vars(self.query()));
        }
        let assumptions: Option<&Assumptions> = match &self.assumptions {
            Some(a) => Some(&**a),
            None => None,
        };
        let walker = Walker {
            ddnnf: self.ddnnf,
            free_vars: &self.free_vars,
            assumptions,
            elude_free_vars: self.elude_free_vars,
        };
        if !next_free_vars_interpretation(
            &mut self.model,
            self.free_vars.root_free_vars(),
            self.elude_free_vars,
        ) && !walker.next_path_from(&mut self.model, &mut self.or_edge_indices, NodeIndex(0)) {
            self.has_model = false;
            None
        } else {
            Some(self.model.as_slice())
        }
    }

    /// Computes the first model and returns it, if there is one.
    fn compute_first_model(&mut self) -> (r: Option<&[Option<Literal>]>)
        requires
            old(self).wf(),
            !old(self).first_computed,
        ensures
            final(self).wf(),
            final(self).formula() == old(self).formula(),
            final(self).query() == old(self).query(),
            final(self).assumed() == old(self).assumed(),
            final(self).state() == old(self).formula().next_state(
                old(self).query(),
                old(self).state(),
            ),
            r is Some <==> final(self).state().has_model,
            r is Some ==> r->0@ == final(self).state().trace.model,
    {
        self.first_computed = true;
        let assumptions: Option<&Assumptions> = match &self.assumptions {
            Some(a) => Some(&**a),
            None => None,
        };
        let walker = Walker {
            ddnnf: self.ddnnf,
            free_vars: &self.free_vars,
            assumptions,
            elude_free_vars: self.elude_free_vars,
        };
        if walker.first_path_from(&mut self.model, &mut self.or_edge_indices, NodeIndex(0)) {
            self.has_model = true;
            Some(self.model.as_slice())
        } else {
            self.has_model = false;
            None
        }
    }

    /// Returns the assumptions under which the models are enumerated, if
    /// any were set.
    pub fn assumptions(&self) -> (r: Option<Rc<Assumptions>>)
        ensures
            r matches Some(a) ==> a@ == self.query().assumptions,
            r is None ==> self.query().assumptions == no_assumption(self.formula().n_vars),
            r == self.assumed(),
    {
        match &self.assumptions {
            Some(a) => Some(share(a)),
            None => None,
        }
    }
}

/// Returns the free variables of the formula that the assumptions leave
/// open.
fn open_free_vars(ddnnf: &DecisionDNNF, assumptions: &Assumptions, Ghost(partial): Ghost<bool>) -> (r:
    FreeVariables)
    requires
        ddnnf@.wf(),
    ensures
        holds_open_vars(r, ddnnf@, Query { assumptions: assumptions@, partial }),
{
    let ghost f = ddnnf@;
    let ghost q = Query { assumptions: assumptions@, partial };
    let all = ddnnf.free_vars();
    let r = all.apply_assumptions(assumptions);
    proof {
        assert forall|n: int| 0 <= n < f.nodes.len() && f.nodes[n] is Or implies (
        #[trigger] r.or_lists()[n]).len() == f.edge_list(n).len() by {
            assert(all.or_lists()[n] == f.node_free_vars(n));
        }
        assert forall|n: int, i: int|
            0 <= n < f.nodes.len() && f.nodes[n] is Or && 0 <= i < f.edge_list(n).len() implies (
        #[trigger] r.or_lists()[n][i]) == f.open_vars(q, n, i) by {
            assert(all.or_lists()[n] == f.node_free_vars(n));
            assert(all.or_lists()[n][i] == f.or_free_vars(n, i));
        }
    }
    r
}

} // verus!
