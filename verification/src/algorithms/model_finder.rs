//! Model finding: one model of a formula, if it has any, by a depth-first
//! walk of the graph.

use crate::formula::assumptions::any_contradicts;
use crate::formula::assumptions::contradicts;
use crate::formula::decision_dnnf::edge_numbers;
use crate::formula::decision_dnnf::DecisionDNNF;
use crate::formula::decision_dnnf::EdgeIndex;
use crate::formula::decision_dnnf::Formula;
use crate::formula::decision_dnnf::Node;
use crate::formula::decision_dnnf::NodeIndex;
use crate::formula::decision_dnnf::NodeModel;
use crate::formula::involved_vars::literal_vars;
use crate::formula::involved_vars::InvolvedVars;
use crate::formula::literal::Literal;
use vstd::prelude::*;

verus! {

/// The polarity that the first literal of variable `var` in `literals` has,
/// if there is one.
pub open spec fn first_polarity(literals: Seq<Literal>, var: nat) -> Option<bool>
    decreases literals.len(),
{
    if literals.len() == 0 {
        None
    } else {
        match first_polarity(literals.drop_last(), var) {
            Some(p) => Some(p),
            None => if literals.last().var() == var {
                Some(literals.last().is_positive())
            } else {
                None
            },
        }
    }
}

/// The mapping that a finder makes of its assumptions: each variable has
/// the polarity of its first literal in the list.
pub open spec fn first_wins(n_vars: nat, literals: Seq<Literal>) -> Seq<Option<bool>> {
    Seq::new(n_vars, |v: int| first_polarity(literals, v as nat))
}

/// The literals that complete a model: one for each variable below `hi`
/// that is not in `s`, in increasing order of variable, positive unless the
/// mapping `a` asks for the negative one.
pub open spec fn filling(s: Set<nat>, a: Seq<Option<bool>>, hi: nat) -> Seq<Literal>
    decreases hi,
{
    if hi == 0 {
        Seq::empty()
    } else if s.contains((hi - 1) as nat) {
        filling(s, a, (hi - 1) as nat)
    } else {
        filling(s, a, (hi - 1) as nat).push(
            Literal::of((hi - 1) as nat, !(hi - 1 < a.len() && a[hi - 1] == Some(false))),
        )
    }
}

/// The model that the literals `found` along a walk stand for: the walk's
/// literals, followed by one literal for each variable that the walk left
/// open, unless the walk gave as many literals as there are variables.
pub open spec fn completed(found: Seq<Literal>, a: Seq<Option<bool>>, n_vars: nat) -> Seq<Literal> {
    if found.len() < n_vars {
        found + filling(literal_vars(found), a, n_vars)
    } else {
        found
    }
}

impl Formula {
    /// The literals that the walk collects from node `n` on, where it
    /// succeeds: a conjunction node needs each of its edges, a disjunction
    /// node takes the first edge that succeeds.
    pub open spec fn found(self, a: Seq<Option<bool>>, n: int) -> Option<Seq<Literal>>
        decreases self.rank()[n], 1nat, 0nat,
        when self.wf() && 0 <= n < self.nodes.len()
    {
        match self.nodes[n] {
            NodeModel::True => Some(Seq::empty()),
            NodeModel::False => None,
            NodeModel::And(_) => self.found_all(a, n, self.edge_list(n).len() as int),
            NodeModel::Or(_) => self.found_first(a, n, 0),
        }
    }

    /// The literals that the walk collects through the `i`-th edge of node
    /// `n`, where no literal of the edge contradicts the mapping and the
    /// walk succeeds from the target on.
    pub open spec fn found_via(self, a: Seq<Option<bool>>, n: int, i: int) -> Option<
        Seq<Literal>,
    >
        decreases self.rank()[n], 0nat, 0nat,
        when self.wf() && 0 <= n < self.nodes.len() && 0 <= i < self.edge_list(n).len()
    {
        proof {
            self.lemma_child(n, i);
        }
        if any_contradicts(a, self.edge(n, i).propagated) {
            None
        } else {
            match self.found(a, self.child(n, i)) {
                None => None,
                Some(s) => Some(self.edge(n, i).propagated + s),
            }
        }
    }

    /// The literals that the walk collects through the first `i` edges of
    /// node `n`, where it succeeds through each of them.
    pub open spec fn found_all(self, a: Seq<Option<bool>>, n: int, i: int) -> Option<
        Seq<Literal>,
    >
        decreases self.rank()[n], 0nat, i + 1,
        when self.wf() && 0 <= n < self.nodes.len() && 0 <= i <= self.edge_list(n).len()
    {
        if i == 0 {
            Some(Seq::empty())
        } else {
            match self.found_all(a, n, i - 1) {
                None => None,
                Some(s) => match self.found_via(a, n, i - 1) {
                    None => None,
                    Some(t) => Some(s + t),
                },
            }
        }
    }

    /// The literals that the walk collects through the first edge of node
    /// `n`, from the `i`-th on, through which it succeeds.
    pub open spec fn found_first(self, a: Seq<Option<bool>>, n: int, i: int) -> Option<
        Seq<Literal>,
    >
        decreases self.rank()[n], 0nat, self.edge_list(n).len() - i + 1,
        when self.wf() && 0 <= n < self.nodes.len() && 0 <= i <= self.edge_list(n).len()
    {
        if i >= self.edge_list(n).len() {
            None
        } else {
            match self.found_via(a, n, i) {
                Some(t) => Some(t),
                None => self.found_first(a, n, i + 1),
            }
        }
    }
}

/// A structure used to find models in a [`DecisionDNNF`].
///
/// Queries can involve assumption literals. In this case, the only models
/// under consideration are those that include such literals. If no model
/// includes those assumptions, the query returns no model.
pub struct ModelFinder<'a> {
    ddnnf: &'a DecisionDNNF,
}

/// The mapping that two sets of variables stand for: those assumed positive
/// and those assumed negative.
pub open spec fn sets_mapping(n_vars: nat, pos: Set<nat>, neg: Set<nat>) -> Seq<Option<bool>> {
    Seq::new(
        n_vars,
        |v: int|
            if pos.contains(v as nat) {
                Some(true)
            } else if neg.contains(v as nat) {
                Some(false)
            } else {
                None
            },
    )
}

impl<'a> ModelFinder<'a> {
    /// The formula in which models are searched.
    pub closed spec fn formula(&self) -> Formula {
        self.ddnnf@
    }

    /// Builds a new model finder given a [`DecisionDNNF`].
    #[must_use]
    pub fn new(ddnnf: &'a DecisionDNNF) -> (r: Self)
        ensures
            r.formula() == ddnnf@,
    {
        Self { ddnnf }
    }

    /// Searches for a model.
    #[must_use]
    pub fn find_model(&self) -> (r: Option<Vec<Literal>>)
        requires
            self.formula().wf(),
        ensures
            r is Some <==> self.formula().found(
                first_wins(self.formula().n_vars, Seq::empty()),
                0,
            ) is Some,
            r is Some ==> r->0@ == completed(
                self.formula().found(first_wins(self.formula().n_vars, Seq::empty()), 0)->0,
                first_wins(self.formula().n_vars, Seq::empty()),
                self.formula().n_vars,
            ),
    {
        let none: Vec<Literal> = Vec::new();
        self.find_model_under_assumptions(none.as_slice())
    }

    /// Searches for a model that is compatible with the provided
    /// assumptions.
    ///
    /// Literals must refer to variables of the formula. Where two
    /// assumptions speak of the same variable, the first one counts.
    #[must_use]
    pub fn find_model_under_assumptions(&self, assumptions: &[Literal]) -> (r: Option<
        Vec<Literal>,
    >)
        requires
            self.formula().wf(),
            forall|i: int|
                0 <= i < assumptions@.len() ==> (#[trigger] assumptions@[i]).var()
                    < self.formula().n_vars,
        ensures
            r is Some <==> self.formula().found(
                first_wins(self.formula().n_vars, assumptions@),
                0,
            ) is Some,
            r is Some ==> r->0@ == completed(
                self.formula().found(first_wins(self.formula().n_vars, assumptions@), 0)->0,
                first_wins(self.formula().n_vars, assumptions@),
                self.formula().n_vars,
            ),
    {
        let ghost f = self.ddnnf@;
        let n_vars = self.ddnnf.n_vars();
        let mut pos_assumptions = InvolvedVars::new(n_vars);
        let mut neg_assumptions = InvolvedVars::new(n_vars);
        let mut i: usize = 0;
        proof {
            assert(sets_mapping(f.n_vars, pos_assumptions@, neg_assumptions@) =~= first_wins(
                f.n_vars,
                assumptions@.take(0),
            ));
        }
        while i < assumptions.len()
            invariant
                i <= assumptions.len(),
                f == self.ddnnf@,
                n_vars == f.n_vars,
                forall|j: int|
                    0 <= j < assumptions@.len() ==> (#[trigger] assumptions@[j]).var() < n_vars,
                pos_assumptions.wf(),
                neg_assumptions.wf(),
                pos_assumptions.capacity() == n_vars,
                neg_assumptions.capacity() == n_vars,
                pos_assumptions@.disjoint(neg_assumptions@),
                sets_mapping(f.n_vars, pos_assumptions@, neg_assumptions@) == first_wins(
                    f.n_vars,
                    assumptions@.take(i as int),
                ),
            decreases assumptions.len() - i,
        {
            let assumption = assumptions[i];
            let ghost before = sets_mapping(f.n_vars, pos_assumptions@, neg_assumptions@);
            proof {
                assert(assumptions@.take(i + 1).drop_last() =~= assumptions@.take(i as int));
                assert(assumptions@.take(i + 1).last() == assumption);
                assert(before[assumption.var() as int] == first_polarity(
                    assumptions@.take(i as int),
                    assumption.var(),
                ));
            }
            if is_compatible_with_assumptions(assumption, &pos_assumptions, &neg_assumptions) {
                if assumption.polarity() {
                    pos_assumptions.set_literal(assumption);
                } else {
                    neg_assumptions.set_literal(assumption);
                }
            }
            proof {
                let after = sets_mapping(f.n_vars, pos_assumptions@, neg_assumptions@);
                assert forall|v: int| 0 <= v < f.n_vars implies after[v] == first_polarity(
                    assumptions@.take(i + 1),
                    v as nat,
                ) by {
                    assert(before[v] == first_polarity(assumptions@.take(i as int), v as nat));
                }
                assert(after =~= first_wins(f.n_vars, assumptions@.take(i + 1)));
            }
            i = i + 1;
        }
        proof {
            assert(assumptions@.take(i as int) =~= assumptions@);
        }
        let ghost a = first_wins(f.n_vars, assumptions@);
        let mut model: Vec<Literal> = Vec::new();
        if self.find_model_under_assumptions_from_node(
            NodeIndex(0),
            &mut model,
            &pos_assumptions,
            &neg_assumptions,
        ) {
            proof {
                assert(model@ =~= f.found(a, 0)->0);
            }
            if model.len() < n_vars {
                let ghost found = model@;
                proof {
                    self.lemma_found_vars(a, 0);
                }
                let mut involved = InvolvedVars::new(n_vars);
                involved.set_literals(model.as_slice());
                assert(involved@ =~= literal_vars(found));
                let mut v: usize = 0;
                while v < n_vars
                    invariant
                        v <= n_vars,
                        n_vars == f.n_vars,
                        2 * n_vars <= usize::MAX + 1,
                        involved.wf(),
                        involved.capacity() == n_vars,
                        involved@ == literal_vars(found),
                        pos_assumptions.wf(),
                        neg_assumptions.wf(),
                        pos_assumptions.capacity() == n_vars,
                        neg_assumptions.capacity() == n_vars,
                        a == sets_mapping(f.n_vars, pos_assumptions@, neg_assumptions@),
                        pos_assumptions@.disjoint(neg_assumptions@),
                        model@ == found + filling(literal_vars(found), a, v as nat),
                    decreases n_vars - v,
                {
                    let missing = Literal::new(v, true);
                    if !involved.is_set(missing) {
                        if is_compatible_with_assumptions(
                            missing,
                            &pos_assumptions,
                            &neg_assumptions,
                        ) {
                            model.push(missing);
                        } else {
                            model.push(missing.flip());
                        }
                    }
                    proof {
                        let s = literal_vars(found);
                        assert(a[v as int] == Some(false) <==> neg_assumptions@.contains(v as nat));
                        assert(model@ =~= found + filling(s, a, (v + 1) as nat));
                    }
                    v = v + 1;
                }
            }
            Some(model)
        } else {
            None
        }
    }

    /// The literals that a walk collects speak of variables of the
    /// formula.
    proof fn lemma_found_vars(&self, a: Seq<Option<bool>>, n: int)
        requires
            self.formula().wf(),
            0 <= n < self.formula().nodes.len(),
        ensures
            self.formula().found(a, n) matches Some(s) ==> forall|k: int|
                0 <= k < s.len() ==> (#[trigger] s[k]).var() < self.formula().n_vars,
        decreases self.formula().rank()[n], 1nat, 0nat,
    {
        let f = self.formula();
        match f.nodes[n] {
            NodeModel::And(_) => {
                self.lemma_found_all_vars(a, n, f.edge_list(n).len() as int);
            },
            NodeModel::Or(_) => {
                self.lemma_found_first_vars(a, n, 0);
            },
            _ => {},
        }
    }

    proof fn lemma_found_via_vars(&self, a: Seq<Option<bool>>, n: int, i: int)
        requires
            self.formula().wf(),
            0 <= n < self.formula().nodes.len(),
            0 <= i < self.formula().edge_list(n).len(),
        ensures
            self.formula().found_via(a, n, i) matches Some(s) ==> forall|k: int|
                0 <= k < s.len() ==> (#[trigger] s[k]).var() < self.formula().n_vars,
        decreases self.formula().rank()[n], 0nat, 0nat,
    {
        let f = self.formula();
        f.lemma_child(n, i);
        self.lemma_found_vars(a, f.child(n, i));
        let p = f.edge(n, i).propagated;
        assert forall|k: int| 0 <= k < p.len() implies (#[trigger] p[k]).var() < f.n_vars by {
            assert(f.edges[f.edge_list(n)[i] as int].propagated[k].var() < f.n_vars);
        }
    }

    proof fn lemma_found_all_vars(&self, a: Seq<Option<bool>>, n: int, i: int)
        requires
            self.formula().wf(),
            0 <= n < self.formula().nodes.len(),
            0 <= i <= self.formula().edge_list(n).len(),
        ensures
            self.formula().found_all(a, n, i) matches Some(s) ==> forall|k: int|
                0 <= k < s.len() ==> (#[trigger] s[k]).var() < self.formula().n_vars,
        decreases self.formula().rank()[n], 0nat, i + 1,
    {
        if i > 0 {
            self.lemma_found_all_vars(a, n, i - 1);
            self.lemma_found_via_vars(a, n, i - 1);
        }
    }

    proof fn lemma_found_first_vars(&self, a: Seq<Option<bool>>, n: int, i: int)
        requires
            self.formula().wf(),
            0 <= n < self.formula().nodes.len(),
            0 <= i <= self.formula().edge_list(n).len(),
        ensures
            self.formula().found_first(a, n, i) matches Some(s) ==> forall|k: int|
                0 <= k < s.len() ==> (#[trigger] s[k]).var() < self.formula().n_vars,
        decreases self.formula().rank()[n], 0nat, self.formula().edge_list(n).len() - i + 1,
    {
        if i < self.formula().edge_list(n).len() {
            self.lemma_found_via_vars(a, n, i);
            self.lemma_found_first_vars(a, n, i + 1);
        }
    }

    /// Walks from the node `from`, adding to `model` the literals collected.
    /// Where the walk fails, what `model` held before is still its
    /// beginning.
    #[verifier::loop_isolation(false)]
    fn find_model_under_assumptions_from_node(
        &self,
        from: NodeIndex,
        model: &mut Vec<Literal>,
        pos_assumptions: &InvolvedVars,
        neg_assumptions: &InvolvedVars,
    ) -> (r: bool)
        requires
            self.formula().wf(),
            from.0 < self.formula().nodes.len(),
            pos_assumptions.wf(),
            neg_assumptions.wf(),
            pos_assumptions.capacity() == self.formula().n_vars,
            neg_assumptions.capacity() == self.formula().n_vars,
            pos_assumptions@.disjoint(neg_assumptions@),
        ensures
            r == self.formula().found(
                sets_mapping(self.formula().n_vars, pos_assumptions@, neg_assumptions@),
                from.0 as int,
            ) is Some,
            r ==> final(model)@ == old(model)@ + self.formula().found(
                sets_mapping(self.formula().n_vars, pos_assumptions@, neg_assumptions@),
                from.0 as int,
            )->0,
            final(model)@.len() >= old(model)@.len(),
            final(model)@.take(old(model)@.len() as int) == old(model)@,
        decreases self.formula().rank()[from.0 as int], 1nat,
    {
        let ghost f = self.ddnnf@;
        let ghost a = sets_mapping(f.n_vars, pos_assumptions@, neg_assumptions@);
        let ghost n = from.0 as int;
        let ghost start = model@;
        match self.ddnnf.node(from) {
            Node::And(edge_indices) => {
                let mut i: usize = 0;
                proof {
                    assert(f.found_all(a, n, 0) == Some(Seq::<Literal>::empty()));
                    assert(model@ =~= start + Seq::<Literal>::empty());
                }
                while i < edge_indices.len()
                    invariant
                        i <= edge_indices.len(),
                        f == self.ddnnf@,
                        f == self.formula(),
                        a == sets_mapping(f.n_vars, pos_assumptions@, neg_assumptions@),
                        n == from.0,
                        f.wf(),
                        0 <= n < f.nodes.len(),
                        f.nodes[n] is And,
                        edge_numbers(edge_indices@) == f.edge_list(n),
                        pos_assumptions.wf(),
                        neg_assumptions.wf(),
                        pos_assumptions.capacity() == f.n_vars,
                        neg_assumptions.capacity() == f.n_vars,
                        pos_assumptions@.disjoint(neg_assumptions@),
                        f.found_all(a, n, i as int) is Some,
                        model@ == start + f.found_all(a, n, i as int)->0,
                    decreases edge_indices.len() - i,
                {
                    proof {
                        f.lemma_child(n, i as int);
                        assert(f.found_all(a, n, i + 1) == match f.found_all(a, n, i as int) {
                            None => None,
                            Some(s) => match f.found_via(a, n, i as int) {
                                None => None,
                                Some(t) => Some(s + t),
                            },
                        });
                    }
                    let ghost before = model@;
                    if !self.find_model_under_assumptions_from_edge(
                        edge_indices[i],
                        model,
                        pos_assumptions,
                        neg_assumptions,
                        Ghost(n),
                        Ghost(i as int),
                    ) {
                        proof {
                            self.lemma_found_all_fails(a, n, i + 1, f.edge_list(n).len() as int);
                            assert(f.found(a, n) == f.found_all(
                                a,
                                n,
                                f.edge_list(n).len() as int,
                            ));
                            assert(model@.take(start.len() as int) =~= before.take(
                                start.len() as int,
                            ));
                            assert(before.take(start.len() as int) =~= start);
                        }
                        return false;
                    }
                    proof {
                        let s = f.found_all(a, n, i as int)->0;
                        let t = f.found_via(a, n, i as int)->0;
                        assert(model@ =~= start + (s + t));
                    }
                    i = i + 1;
                }
                proof {
                    assert(f.found(a, n) == f.found_all(a, n, f.edge_list(n).len() as int));
                    assert(model@.take(start.len() as int) =~= start);
                }
                true
            },
            Node::Or(edge_indices) => {
                let mut i: usize = 0;
                while i < edge_indices.len()
                    invariant
                        i <= edge_indices.len(),
                        f == self.ddnnf@,
                        f == self.formula(),
                        a == sets_mapping(f.n_vars, pos_assumptions@, neg_assumptions@),
                        n == from.0,
                        f.wf(),
                        0 <= n < f.nodes.len(),
                        f.nodes[n] is Or,
                        edge_numbers(edge_indices@) == f.edge_list(n),
                        pos_assumptions.wf(),
                        neg_assumptions.wf(),
                        pos_assumptions.capacity() == f.n_vars,
                        neg_assumptions.capacity() == f.n_vars,
                        pos_assumptions@.disjoint(neg_assumptions@),
                        f.found_first(a, n, 0) == f.found_first(a, n, i as int),
                        model@ == start,
                    decreases edge_indices.len() - i,
                {
                    proof {
                        f.lemma_child(n, i as int);
                        assert(f.found_first(a, n, i as int) == match f.found_via(a, n, i as int) {
                            Some(t) => Some(t),
                            None => f.found_first(a, n, i + 1),
                        });
                    }
                    if self.find_model_under_assumptions_from_edge(
                        edge_indices[i],
                        model,
                        pos_assumptions,
                        neg_assumptions,
                        Ghost(n),
                        Ghost(i as int),
                    ) {
                        proof {
                            assert(f.found(a, n) == f.found_first(a, n, 0));
                            assert(model@.take(start.len() as int) =~= start);
                        }
                        return true;
                    }
                    i = i + 1;
                }
                proof {
                    assert(f.found(a, n) == f.found_first(a, n, 0));
                    assert(f.found_first(a, n, i as int) is None);
                    assert(model@.take(start.len() as int) =~= start);
                }
                false
            },
            Node::True => {
                proof {
                    assert(model@ =~= start + Seq::<Literal>::empty());
                    assert(model@.take(start.len() as int) =~= start);
                }
                true
            },
            Node::False => {
                proof {
                    assert(model@.take(start.len() as int) =~= start);
                }
                false
            },
        }
    }

    /// Once the walk fails through one of the first edges of a conjunction
    /// node, it fails through the node.
    proof fn lemma_found_all_fails(&self, a: Seq<Option<bool>>, n: int, i: int, j: int)
        requires
            self.formula().wf(),
            0 <= n < self.formula().nodes.len(),
            0 <= i <= j <= self.formula().edge_list(n).len(),
            self.formula().found_all(a, n, i) is None,
        ensures
            self.formula().found_all(a, n, j) is None,
        decreases j - i,
    {
        if i < j {
            self.lemma_found_all_fails(a, n, i, j - 1);
            assert(self.formula().found_all(a, n, j) == match self.formula().found_all(
                a,
                n,
                j - 1,
            ) {
                None => None,
                Some(s) => match self.formula().found_via(a, n, j - 1) {
                    None => None,
                    Some(t) => Some(s + t),
                },
            });
        }
    }

    /// Walks through the edge `from`, the `i`-th edge of node `n`, adding to
    /// `model` the literals collected. Where the walk fails, `model` is as
    /// it was.
    #[verifier::loop_isolation(false)]
    fn find_model_under_assumptions_from_edge(
        &self,
        from: EdgeIndex,
        model: &mut Vec<Literal>,
        pos_assumptions: &InvolvedVars,
        neg_assumptions: &InvolvedVars,
        Ghost(n): Ghost<int>,
        Ghost(i): Ghost<int>,
    ) -> (r: bool)
        requires
            self.formula().wf(),
            0 <= n < self.formula().nodes.len(),
            0 <= i < self.formula().edge_list(n).len(),
            self.formula().edge_list(n)[i] == from.0,
            pos_assumptions.wf(),
            neg_assumptions.wf(),
            pos_assumptions.capacity() == self.formula().n_vars,
            neg_assumptions.capacity() == self.formula().n_vars,
            pos_assumptions@.disjoint(neg_assumptions@),
        ensures
            r == self.formula().found_via(
                sets_mapping(self.formula().n_vars, pos_assumptions@, neg_assumptions@),
                n,
                i,
            ) is Some,
            r ==> final(model)@ == old(model)@ + self.formula().found_via(
                sets_mapping(self.formula().n_vars, pos_assumptions@, neg_assumptions@),
                n,
                i,
            )->0,
            !r ==> final(model)@ == old(model)@,
        decreases self.formula().rank()[n], 0nat,
    {
        let ghost f = self.ddnnf@;
        let ghost a = sets_mapping(f.n_vars, pos_assumptions@, neg_assumptions@);
        let ghost start = model@;
        proof {
            f.lemma_child(n, i);
            assert(f.found_via(a, n, i) == if any_contradicts(a, f.edge(n, i).propagated) {
                None
            } else {
                match f.found(a, f.child(n, i)) {
                    None => None,
                    Some(s) => Some(f.edge(n, i).propagated + s),
                }
            });
        }
        let old_model_len = model.len();
        let edge = self.ddnnf.edge(from);
        let propagated = edge.propagated();
        let mut k: usize = 0;
        while k < propagated.len()
            invariant
                k <= propagated.len(),
                f == self.ddnnf@,
                f.wf(),
                a == sets_mapping(f.n_vars, pos_assumptions@, neg_assumptions@),
                propagated@ == f.edge(n, i).propagated,
                forall|j: int| 0 <= j < propagated@.len() ==> (#[trigger] propagated@[j]).var() < f.n_vars,
                pos_assumptions.wf(),
                neg_assumptions.wf(),
                pos_assumptions.capacity() == f.n_vars,
                neg_assumptions.capacity() == f.n_vars,
                pos_assumptions@.disjoint(neg_assumptions@),
                forall|j: int| 0 <= j < k ==> !contradicts(a, #[trigger] propagated@[j]),
                model@ == start,
            decreases propagated.len() - k,
        {
            if !is_compatible_with_assumptions(propagated[k], pos_assumptions, neg_assumptions) {
                return false;
            }
            k = k + 1;
        }
        let mut k: usize = 0;
        while k < propagated.len()
            invariant
                k <= propagated.len(),
                model@ == start + propagated@.take(k as int),
            decreases propagated.len() - k,
        {
            model.push(propagated[k]);
            proof {
                assert(model@ =~= start + propagated@.take(k + 1));
            }
            k = k + 1;
        }
        proof {
            assert(propagated@.take(k as int) =~= propagated@);
        }
        let ghost middle = model@;
        if self.find_model_under_assumptions_from_node(
            edge.target(),
            model,
            pos_assumptions,
            neg_assumptions,
        ) {
            proof {
                let s = f.found(a, f.child(n, i))->0;
                assert(model@ =~= start + (propagated@ + s));
            }
            true
        } else {
            model.truncate(old_model_len);
            proof {
                assert(model@ =~= start) by {
                    assert(middle.take(start.len() as int) =~= start);
                }
            }
            false
        }
    }
}

/// Tells whether the literal `l` is compatible with the assumptions: no
/// assumption gives its variable the other polarity.
pub fn is_compatible_with_assumptions(
    l: Literal,
    pos_assumptions: &InvolvedVars,
    neg_assumptions: &InvolvedVars,
) -> (b: bool)
    requires
        pos_assumptions.wf(),
        neg_assumptions.wf(),
        l.var() < pos_assumptions.capacity(),
        l.var() < neg_assumptions.capacity(),
        pos_assumptions.capacity() == neg_assumptions.capacity(),
        pos_assumptions@.disjoint(neg_assumptions@),
    ensures
        b == !contradicts(
            sets_mapping(pos_assumptions.capacity(), pos_assumptions@, neg_assumptions@),
            l,
        ),
{
    if l.polarity() {
        !neg_assumptions.is_set(l)
    } else {
        !pos_assumptions.is_set(l)
    }
}

} // verus!
