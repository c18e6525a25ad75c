//! Model enumeration along a decision tree: the models are found one by
//! one by a [`ModelFinder`], under assumptions that fix the first variables
//! in turn.

use crate::algorithms::direct_access::vars_below;
use crate::algorithms::model_finder::completed;
use crate::algorithms::model_finder::first_wins;
use crate::algorithms::model_finder::ModelFinder;
use crate::formula::decision_dnnf::DecisionDNNF;
use crate::formula::decision_dnnf::Formula;
use crate::formula::literal::Literal;
use vstd::arithmetic::power2::lemma_pow2_pos;
use vstd::arithmetic::power2::lemma_pow2_unfold;
use vstd::arithmetic::power2::pow2;
use vstd::prelude::*;

verus! {

/// Whether `model` is the model that a finder finds in `f` under some
/// assumptions.
pub open spec fn is_found(f: Formula, model: Seq<Literal>) -> bool {
    exists|a: Seq<Literal>|
        vars_below(a, f.n_vars) && #[trigger] f.found(first_wins(f.n_vars, a), 0) is Some && model
            == completed(f.found(first_wins(f.n_vars, a), 0)->0, first_wins(f.n_vars, a), f.n_vars)
}

/// The work that the branches that wait stand for: a branch that fixes the
/// variable `var` of `n_vars` stands for the branches of the tree below it.
pub open spec fn pending_work(stack: Seq<(bool, Literal)>, n_vars: nat) -> nat
    decreases stack.len(),
{
    if stack.len() == 0 {
        0
    } else {
        (pending_work(stack.drop_last(), n_vars) + pow2((n_vars - stack.last().1.var()) as nat)
            - 1) as nat
    }
}

/// The first literal of the variable `var` in `model` from the place `k`
/// on, if there is one.
pub open spec fn first_of_var(model: Seq<Literal>, var: nat, k: int) -> Option<Literal>
    decreases model.len() - k,
{
    if k < 0 || k >= model.len() {
        None
    } else if model[k].var() == var {
        Some(model[k])
    } else {
        first_of_var(model, var, k + 1)
    }
}

/// The two branches on the variable `var` that are made to wait after the
/// model `last` was found: the branch that disagrees with the model, then
/// the branch that agrees with it, which needs no search.
pub open spec fn branches(last: Seq<Literal>, var: nat) -> Seq<(bool, Literal)> {
    match first_of_var(last, var, 0) {
        Some(l) => seq![(false, l.flipped()), (true, l)],
        None => seq![(false, Literal::of(var, false)), (false, Literal::of(var, true))],
    }
}

/// The state of an enumeration along a decision tree: the literals that
/// fix the first variables, the branches that wait, the last model that was
/// found, and whether the first model was asked for.
pub struct TreeState {
    pub fixed: Seq<Literal>,
    pub stack: Seq<(bool, Literal)>,
    pub last: Seq<Literal>,
    pub started: bool,
}

/// The state after the branches that wait were taken in turn, the last
/// first, until one gave a model or none was left, with this model if there
/// is one. A branch fixes its variable after the variables before it. The
/// branch that agrees with the last model has this model; another one is
/// searched by a finder, and is left where it has no model. A branch that
/// does not fix the last variable makes the two branches on the next
/// variable wait. At most `fuel` branches are taken.
pub open spec fn tree_run(f: Formula, s: TreeState, fuel: nat) -> (TreeState, Option<Seq<Literal>>)
    decreases fuel,
{
    if fuel == 0 || s.stack.len() == 0 {
        (s, None)
    } else {
        let lit = s.stack.last().1;
        let fixed = s.fixed.take(lit.var() as int).push(lit);
        let popped = TreeState { fixed, stack: s.stack.drop_last(), ..s };
        if s.stack.last().0 {
            if fixed.len() == f.n_vars {
                (popped, Some(popped.last))
            } else {
                tree_run(
                    f,
                    TreeState { stack: popped.stack + branches(popped.last, fixed.len()), ..popped },
                    (fuel - 1) as nat,
                )
            }
        } else {
            match f.found(first_wins(f.n_vars, fixed), 0) {
                Some(literals) => {
                    let last = completed(literals, first_wins(f.n_vars, fixed), f.n_vars);
                    if fixed.len() == f.n_vars {
                        (TreeState { last, ..popped }, Some(last))
                    } else {
                        tree_run(
                            f,
                            TreeState {
                                last,
                                stack: popped.stack + branches(last, fixed.len()),
                                ..popped
                            },
                            (fuel - 1) as nat,
                        )
                    }
                },
                None => tree_run(f, popped, (fuel - 1) as nat),
            }
        }
    }
}

/// The state after one more model was asked for, with this model if there
/// is one. The first request searches a model under no assumption: where
/// there is none the enumeration is over; else, where the formula has
/// variables, the two branches on the first variable wait. Then, and at
/// each later request, the branches that wait are taken in turn.
pub open spec fn tree_next(f: Formula, s: TreeState) -> (TreeState, Option<Seq<Literal>>) {
    if !s.started {
        let start = TreeState {
            fixed: Seq::empty(),
            stack: Seq::empty(),
            last: s.last,
            started: true,
        };
        match f.found(first_wins(f.n_vars, Seq::empty()), 0) {
            None => (start, None),
            Some(literals) => {
                let last = completed(literals, first_wins(f.n_vars, Seq::empty()), f.n_vars);
                if f.n_vars == 0 {
                    (TreeState { last, ..start }, Some(last))
                } else {
                    let begun = TreeState { last, stack: branches(last, 0), ..start };
                    tree_run(f, begun, pending_work(begun.stack, f.n_vars))
                }
            },
        }
    } else {
        tree_run(f, s, pending_work(s.stack, f.n_vars))
    }
}

/// Branches that wait stand for some work.
pub proof fn lemma_pending_work(stack: Seq<(bool, Literal)>, n_vars: nat)
    requires
        stack.len() > 0,
        forall|k: int| 0 <= k < stack.len() ==> (#[trigger] stack[k]).1.var() < n_vars,
    ensures
        pending_work(stack, n_vars) >= 1,
{
    let e = (n_vars - stack.last().1.var()) as nat;
    lemma_pow2_unfold(e);
    lemma_pow2_pos((e - 1) as nat);
}

/// A structure used to enumerate the models of a [`DecisionDNNF`] along a
/// decision tree on its variables, taken in increasing order.
///
/// Each node of the tree fixes one more variable. The branch that agrees
/// with the last model that was found needs no search: this model is a
/// model of the branch.
pub struct DecisionTreeEnumerator<'a> {
    ddnnf: &'a DecisionDNNF,
    assumptions: Vec<Literal>,
    stack: Vec<(bool, Literal)>,
    last_model: Vec<Literal>,
    started: bool,
}

impl<'a> DecisionTreeEnumerator<'a> {
    /// The formula whose models are enumerated.
    pub closed spec fn formula(&self) -> Formula {
        self.ddnnf@
    }

    /// The last model that was found.
    pub closed spec fn current(&self) -> Seq<Literal> {
        self.last_model@
    }

    /// The state of the enumeration.
    pub closed spec fn state(&self) -> TreeState {
        TreeState {
            fixed: self.assumptions@,
            stack: self.stack@,
            last: self.last_model@,
            started: self.started,
        }
    }

    /// The enumerator is consistent: the assumptions fix the first
    /// variables in order, and the branches that wait are deeper and deeper
    /// in the tree.
    pub closed spec fn wf(&self) -> bool {
        &&& self.ddnnf@.wf()
        &&& self.assumptions@.len() <= self.ddnnf@.n_vars
        &&& forall|j: int|
            0 <= j < self.assumptions@.len() ==> (#[trigger] self.assumptions@[j]).var() == j
        &&& forall|s: int|
            0 <= s < self.stack@.len() ==> (#[trigger] self.stack@[s]).1.var()
                <= self.assumptions@.len() && self.stack@[s].1.var() < self.ddnnf@.n_vars
        &&& forall|s: int, t: int|
            0 <= s <= t < self.stack@.len() ==> (#[trigger] self.stack@[s]).1.var() <= (
            #[trigger] self.stack@[t]).1.var()
        &&& (self.started && self.stack@.len() > 0 ==> is_found(self.ddnnf@, self.last_model@))
    }

    /// Builds a new enumerator for a [`DecisionDNNF`].
    pub fn new(ddnnf: &'a DecisionDNNF) -> (r: Self)
        requires
            ddnnf@.wf(),
        ensures
            r.wf(),
            r.formula() == ddnnf@,
            r.state() == (TreeState {
                fixed: Seq::empty(),
                stack: Seq::empty(),
                last: Seq::empty(),
                started: false,
            }),
    {
        Self {
            ddnnf,
            assumptions: Vec::new(),
            stack: Vec::new(),
            last_model: Vec::new(),
            started: false,
        }
    }

    /// Makes the two branches on the variable `var` wait: first the branch
    /// that agrees with the last model, which needs no search, then the
    /// other one.
    fn update_stack(&mut self, var: usize)
        requires
            old(self).wf(),
            old(self).started,
            is_found(old(self).ddnnf@, old(self).last_model@),
            var == old(self).assumptions@.len(),
            var < old(self).ddnnf@.n_vars,
        ensures
            final(self).wf(),
            final(self).started,
            final(self).ddnnf == old(self).ddnnf,
            final(self).last_model == old(self).last_model,
            final(self).assumptions == old(self).assumptions,
            final(self).stack@.len() == old(self).stack@.len() + 2,
            final(self).stack@ == old(self).stack@ + branches(old(self).last_model@, var as nat),
            pending_work(final(self).stack@, final(self).ddnnf@.n_vars) + 2 == pending_work(
                old(self).stack@,
                old(self).ddnnf@.n_vars,
            ) + 2 * pow2((old(self).ddnnf@.n_vars - var) as nat),
    {
        let ghost n_vars = self.ddnnf@.n_vars;
        let ghost before = self.stack@;
        let mut k: usize = 0;
        let mut shortcut_lit: Option<Literal> = None;
        while k < self.last_model.len() && shortcut_lit.is_none()
            invariant
                k <= self.last_model@.len(),
                shortcut_lit matches Some(l) ==> l.var() == var,
                *self == *old(self),
                shortcut_lit is None ==> first_of_var(self.last_model@, var as nat, 0)
                    == first_of_var(self.last_model@, var as nat, k as int),
                shortcut_lit is Some ==> first_of_var(self.last_model@, var as nat, 0)
                    == shortcut_lit,
            decreases self.last_model.len() - k + if shortcut_lit is None {
                1nat
            } else {
                0nat
            },
        {
            if self.last_model[k].var_index() == var {
                shortcut_lit = Some(self.last_model[k]);
            } else {
                k = k + 1;
            }
        }
        let first = match shortcut_lit {
            Some(l) => (false, l.flip()),
            None => (false, Literal::new(var, false)),
        };
        let second = match shortcut_lit {
            Some(l) => (true, l),
            None => (false, Literal::new(var, true)),
        };
        self.stack.push(first);
        self.stack.push(second);
        proof {
            let after = self.stack@;
            assert(after =~= before + branches(self.last_model@, var as nat));
            assert(after.drop_last() =~= before.push(first));
            assert(after.drop_last().drop_last() =~= before);
            lemma_pow2_pos((n_vars - var) as nat);
            assert(first.1.var() == var && second.1.var() == var);
            assert(pending_work(after, n_vars) == (pending_work(after.drop_last(), n_vars) + pow2(
                (n_vars - var) as nat,
            ) - 1) as nat);
            assert(pending_work(after.drop_last(), n_vars) == (pending_work(before, n_vars) + pow2(
                (n_vars - var) as nat,
            ) - 1) as nat);
            assert forall|s: int, t: int| 0 <= s <= t < after.len() implies (
            #[trigger] after[s]).1.var() <= (#[trigger] after[t]).1.var() by {
                if t < before.len() {
                    assert(after[s] == before[s] && after[t] == before[t]);
                } else if s < before.len() {
                    assert(after[s] == before[s]);
                }
            }
            assert forall|s: int| 0 <= s < after.len() implies (#[trigger] after[s]).1.var()
                <= self.assumptions@.len() && after[s].1.var() < n_vars by {
                if s < before.len() {
                    assert(after[s] == before[s]);
                }
            }
        }
    }

    /// Computes the next model and returns it, or nothing once all the
    /// models have been returned.
    #[verifier::loop_isolation(false)]
    pub fn compute_next_model(&mut self) -> (r: Option<&[Literal]>)
        requires
            old(self).wf(),
        ensures
            final(self).wf(),
            final(self).formula() == old(self).formula(),
            r matches Some(model) ==> model@ == final(self).current() && is_found(
                final(self).formula(),
                model@,
            ),
            final(self).state() == tree_next(old(self).formula(), old(self).state()).0,
            match tree_next(old(self).formula(), old(self).state()).1 {
                Some(model) => r matches Some(found) && found@ == model,
                None => r is None,
            },
    {
        let ghost f = self.ddnnf@;
        let ghost goal = tree_next(f, self.state());
        let n_vars = self.ddnnf.n_vars();
        let model_finder = ModelFinder::new(self.ddnnf);
        if !self.started {
            self.started = true;
            self.stack = Vec::new();
            self.assumptions = Vec::new();
            match model_finder.find_model() {
                Some(model) => {
                    self.last_model = model;
                    proof {
                        let a = Seq::<Literal>::empty();
                        assert(vars_below(a, f.n_vars));
                        assert(f.found(first_wins(f.n_vars, a), 0) is Some);
                    }
                    if n_vars == 0 {
                        return Some(self.last_model.as_slice());
                    } else {
                        self.update_stack(0);
                        proof {
                            assert(self.stack@ =~= branches(self.last_model@, 0));
                        }
                    }
                },
                None => {
                    return None;
                },
            }
        }
        let ghost mut fuel = pending_work(self.stack@, f.n_vars);
        proof {
            assert(goal == tree_run(f, self.state(), fuel));
        }
        while self.stack.len() > 0
            invariant
                self.wf(),
                self.started,
                self.ddnnf@ == f,
                n_vars == f.n_vars,
                model_finder.formula() == f,
                fuel >= pending_work(self.stack@, f.n_vars),
                goal == tree_run(f, self.state(), fuel),
            decreases pending_work(self.stack@, f.n_vars),
        {
            let ghost before = self.stack@;
            let ghost entry = self.state();
            proof {
                lemma_pending_work(self.stack@, f.n_vars);
            }
            let ghost work = pending_work(before, f.n_vars);
            let (shortcut, lit) = match self.stack.pop() {
                Some(entry) => entry,
                None => (false, Literal::new(0, true)),
            };
            proof {
                assert(self.stack@ =~= before.drop_last());
                assert(before.last() == (shortcut, lit));
                lemma_pow2_pos((f.n_vars - lit.var()) as nat);
                lemma_pow2_unfold((f.n_vars - lit.var()) as nat);
                lemma_pow2_pos((f.n_vars - lit.var() - 1) as nat);
                assert(work == (pending_work(self.stack@, f.n_vars) + pow2(
                    (f.n_vars - lit.var()) as nat,
                ) - 1) as nat);
                assert forall|s: int| 0 <= s < self.stack@.len() implies (
                #[trigger] self.stack@[s]).1.var() <= lit.var() by {
                    assert(self.stack@[s] == before[s]);
                    assert(before[s].1.var() <= before[before.len() - 1].1.var());
                }
            }
            let ghost kept = self.assumptions@;
            self.assumptions.truncate(lit.var_index());
            self.assumptions.push(lit);
            proof {
                assert(self.assumptions@ =~= kept.take(lit.var() as int).push(lit));
                fuel = (fuel - 1) as nat;
                assert forall|j: int| 0 <= j < self.assumptions@.len() implies (
                #[trigger] self.assumptions@[j]).var() == j by {
                    if j < lit.var() {
                        assert(self.assumptions@[j] == kept[j]);
                    }
                }
                if self.assumptions@.len() == f.n_vars {
                    assert(pow2(0) == 1) by {
                        vstd::arithmetic::power2::lemma2_to64();
                    }
                }
            }
            if shortcut {
                if self.assumptions.len() == n_vars {
                    return Some(self.last_model.as_slice());
                } else {
                    self.update_stack(self.assumptions.len());
                    proof {
                        lemma_pow2_unfold((f.n_vars - lit.var()) as nat);
                    }
                }
            } else {
                proof {
                    assert(vars_below(self.assumptions@, f.n_vars));
                }
                let opt_model = model_finder.find_model_under_assumptions(
                    self.assumptions.as_slice(),
                );
                match opt_model {
                    Some(new_model) => {
                        self.last_model = new_model;
                        proof {
                            assert(f.found(first_wins(f.n_vars, self.assumptions@), 0) is Some);
                        }
                        if self.assumptions.len() == n_vars {
                            return Some(self.last_model.as_slice());
                        } else {
                            self.update_stack(self.assumptions.len());
                            proof {
                                lemma_pow2_unfold((f.n_vars - lit.var()) as nat);
                            }
                        }
                    },
                    None => {},
                }
            }
        }
        None
    }
}

} // verus!
