//! Direct access in the order that a list of literals gives to the models.

use crate::algorithms::counting::mapping_of;
use crate::algorithms::counting::no_assumption;
use crate::algorithms::counting::ModelCounter;
use crate::algorithms::counting::Query;
use crate::algorithms::orphan_nodes_and_edges::new_marks;
use crate::error::Error;
use crate::formula::assumptions::valid_assumptions;
use crate::formula::decision_dnnf::DecisionDNNF;
use crate::formula::decision_dnnf::Formula;
use crate::formula::literal::Literal;
use crate::numbers::integer::integer_clone;
use crate::numbers::integer::integer_from_usize;
use crate::numbers::integer::integer_lt;
use crate::numbers::integer::integer_sub_assign;
use crate::numbers::integer::integer_value;
use rug::Integer;
use vstd::prelude::*;

verus! {

/// Whether `order` holds exactly one literal of each of `n_vars` variables.
pub open spec fn is_order(order: Seq<Literal>, n_vars: nat) -> bool {
    order.len() == n_vars && valid_assumptions(n_vars, order)
}

impl Formula {
    /// The number of models of the formula that hold the literals of
    /// `literals`.
    pub open spec fn count_with(self, literals: Seq<Literal>) -> nat {
        self.global_count(Query { assumptions: mapping_of(self.n_vars, literals), partial: false })
    }

    /// The first `i` literals of the model of index `k` in the order that
    /// `order` gives, with the index that is left for the literals after
    /// them: the models that hold the next literal of the order come first,
    /// those that hold its opposite after them.
    pub open spec fn ordered_prefix(self, order: Seq<Literal>, k: nat, i: int) -> (
        Seq<Literal>,
        nat,
    )
        decreases i,
    {
        if i <= 0 {
            (Seq::empty(), k)
        } else {
            let before = self.ordered_prefix(order, k, i - 1);
            let with = before.0.push(order[i - 1]);
            let c = self.count_with(with);
            if before.1 >= c {
                (before.0.push(order[i - 1].flipped()), (before.1 - c) as nat)
            } else {
                (with, before.1)
            }
        }
    }

    /// The model of index `k` in the order that `order` gives, where `k` is
    /// the index of a model.
    pub open spec fn ordered_model_at(self, order: Seq<Literal>, k: int) -> Option<Seq<Literal>> {
        if 0 <= k < self.global_count(
            Query { assumptions: no_assumption(self.n_vars), partial: false },
        ) {
            Some(self.ordered_prefix(order, k as nat, self.n_vars as int).0)
        } else {
            None
        }
    }

    /// The literals of a prefix speak of the variables of the order, in the
    /// same places.
    pub proof fn lemma_ordered_prefix_vars(self, order: Seq<Literal>, k: nat, i: int)
        requires
            0 <= i <= order.len(),
        ensures
            self.ordered_prefix(order, k, i).0.len() == i,
            forall|j: int|
                0 <= j < i ==> (#[trigger] self.ordered_prefix(order, k, i).0[j]).var()
                    == order[j].var(),
        decreases i,
    {
        if i > 0 {
            self.lemma_ordered_prefix_vars(order, k, i - 1);
            order[i - 1].lemma_of_self();
        }
    }
}

/// An object that returns the model at a given index in the order that a
/// list of literals gives to the models of a [`DecisionDNNF`].
///
/// The order of the models is the same for two equivalent formulas, even if
/// they have a different structure.
pub struct OrderedDirectAccessEngine<'a> {
    ddnnf: &'a DecisionDNNF,
    global_n_models: Integer,
    order: Vec<Literal>,
}

impl<'a> OrderedDirectAccessEngine<'a> {
    /// The formula whose models are accessed.
    pub closed spec fn formula(&self) -> Formula {
        self.ddnnf@
    }

    /// The order of the literals.
    pub closed spec fn order(&self) -> Seq<Literal> {
        self.order@
    }

    /// The engine holds the number of models of its formula and an order of
    /// its variables.
    pub closed spec fn wf(&self) -> bool {
        &&& self.ddnnf@.wf()
        &&& is_order(self.order@, self.ddnnf@.n_vars)
        &&& integer_value(self.global_n_models) == self.ddnnf@.global_count(
            Query { assumptions: no_assumption(self.ddnnf@.n_vars), partial: false },
        )
    }

    /// Builds a new engine given a [`DecisionDNNF`] and an order.
    ///
    /// The order must hold exactly one literal of each variable of the
    /// formula, including the variables that the formula does not mention:
    /// an error is returned otherwise.
    pub fn new(ddnnf: &'a DecisionDNNF, order: Vec<Literal>) -> (r: Result<Self, Error>)
        requires
            ddnnf@.wf(),
        ensures
            r is Ok <==> is_order(order@, ddnnf@.n_vars),
            r matches Ok(engine) ==> engine.wf() && engine.formula() == ddnnf@ && engine.order()
                == order@,
            r matches Err(e) ==> e == Error::WrongOrder,
    {
        let n_vars = ddnnf.n_vars();
        if order.len() != n_vars {
            return Err(Error::WrongOrder);
        }
        let mut seen = new_marks(n_vars);
        let mut i: usize = 0;
        while i < order.len()
            invariant
                i <= order.len(),
                seen@.len() == n_vars,
                n_vars == ddnnf@.n_vars,
                valid_assumptions(n_vars as nat, order@.take(i as int)),
                forall|v: int|
                    0 <= v < n_vars ==> (#[trigger] seen@[v] <==> exists|j: int|
                        0 <= j < i && (#[trigger] order@[j]).var() == v),
            decreases order.len() - i,
        {
            let v = order[i].var_index();
            if v >= n_vars || seen[v] {
                proof {
                    if is_order(order@, n_vars as nat) {
                        if v < n_vars {
                            let j = choose|j: int| 0 <= j < i && (#[trigger] order@[j]).var() == v;
                            assert(order@[j].var() != order@[i as int].var());
                        }
                    }
                }
                return Err(Error::WrongOrder);
            }
            let ghost before = seen@;
            seen.set(v, true);
            proof {
                assert forall|a: int, b: int| 0 <= a < b < i + 1 implies (#[trigger] order@.take(
                    i + 1,
                )[a]).var() != (#[trigger] order@.take(i + 1)[b]).var() by {
                    if b == i {
                        assert(!before[v as int]);
                        assert(order@[a].var() != v);
                    } else {
                        assert(order@.take(i as int)[a].var() != order@.take(i as int)[b].var());
                    }
                }
                assert forall|w: int| 0 <= w < n_vars implies (#[trigger] seen@[w] <==> exists|
                    j: int,
                | 0 <= j < i + 1 && (#[trigger] order@[j]).var() == w) by {
                    if w == v {
                        assert(order@[i as int].var() == w);
                    } else {
                        if before[w] {
                            let j = choose|j: int| 0 <= j < i && (#[trigger] order@[j]).var() == w;
                            assert(0 <= j < i + 1 && order@[j].var() == w);
                        }
                    }
                }
            }
            i = i + 1;
        }
        proof {
            assert(order@.take(i as int) =~= order@);
        }
        let model_counter = ModelCounter::new(ddnnf, false);
        let global_n_models = integer_clone(model_counter.global_count());
        Ok(Self { ddnnf, global_n_models, order })
    }

    /// Returns the model at the given index, or nothing where the index is
    /// not that of a model.
    #[must_use]
    #[verifier::loop_isolation(false)]
    pub fn model(&self, n: Integer) -> (r: Option<Vec<Literal>>)
        requires
            self.wf(),
        ensures
            r is Some <==> self.formula().ordered_model_at(self.order(), integer_value(n)) is Some,
            r is Some ==> r->0@ == self.formula().ordered_model_at(
                self.order(),
                integer_value(n),
            )->0,
    {
        let ghost f = self.ddnnf@;
        let ghost k = integer_value(n);
        let zero = integer_from_usize(0);
        if integer_lt(&n, &zero) || !integer_lt(&n, &self.global_n_models) {
            return None;
        }
        let mut n = n;
        let n_vars = self.ddnnf.n_vars();
        let mut model: Vec<Literal> = Vec::new();
        let mut model_counter = ModelCounter::new(self.ddnnf, false);
        while model.len() != n_vars
            invariant
                model@.len() <= n_vars,
                model_counter.wf(),
                model_counter.formula() == f,
                !model_counter.query().partial,
                integer_value(n) >= 0,
                (model@, integer_value(n) as nat) == f.ordered_prefix(
                    self.order@,
                    k as nat,
                    model@.len() as int,
                ),
            decreases n_vars - model.len(),
        {
            let ghost i = model@.len() as int;
            let ghost before = model@;
            let ghost left = integer_value(n) as nat;
            let next = self.order[model.len()];
            model.push(next);
            proof {
                f.lemma_ordered_prefix_vars(self.order@, k as nat, i);
                assert forall|a: int| 0 <= a < model@.len() implies (#[trigger] model@[a]).var()
                    == self.order@[a].var() by {
                    if a < i {
                        assert(before[a].var() == self.order@[a].var());
                    }
                }
                assert(valid_assumptions(f.n_vars, model@));
            }
            model_counter.set_assumptions(model.as_slice());
            let current_n_models = model_counter.global_count();
            if !integer_lt(&n, current_n_models) {
                let popped = match model.pop() {
                    Some(l) => l,
                    None => next,
                };
                model.push(popped.flip());
                integer_sub_assign(&mut n, current_n_models);
            }
            proof {
                let with = before.push(self.order@[i]);
                let c = f.count_with(with);
                assert(f.ordered_prefix(self.order@, k as nat, i + 1) == if left >= c {
                    (before.push(self.order@[i].flipped()), (left - c) as nat)
                } else {
                    (with, left)
                });
                assert(model@ =~= if left >= c {
                    before.push(self.order@[i].flipped())
                } else {
                    with
                });
            }
        }
        Some(model)
    }

    /// Returns the underlying formula.
    #[must_use]
    pub fn ddnnf(&self) -> (r: &DecisionDNNF)
        ensures
            r@ == self.formula(),
    {
        self.ddnnf
    }
}

} // verus!
