//! Direct access: the model at a given index in the order that the graph
//! gives to its models.

use crate::algorithms::counting::ModelCounter;
use crate::algorithms::counting::Query;
use crate::formula::assumptions::Assumptions;
use crate::formula::decision_dnnf::edge_numbers;
use crate::formula::decision_dnnf::DecisionDNNF;
use crate::formula::decision_dnnf::Formula;
use crate::formula::decision_dnnf::Node;
use crate::formula::decision_dnnf::NodeIndex;
use crate::formula::decision_dnnf::NodeModel;
use crate::formula::free_variables::unassumed;
use crate::formula::free_variables::FreeVariables;
use crate::formula::literal::Literal;
use crate::numbers::integer::integer_clone;
use crate::numbers::integer::integer_div_rem_mut;
use crate::numbers::integer::integer_from_usize;
use crate::numbers::integer::integer_is_odd;
use crate::numbers::integer::integer_lt;
use crate::numbers::integer::integer_shl_assign;
use crate::numbers::integer::integer_shr_assign;
use crate::numbers::integer::integer_sub_assign;
use crate::numbers::integer::integer_value;
use rug::Integer;
use vstd::arithmetic::div_mod::lemma_div_denominator;
use vstd::arithmetic::div_mod::lemma_multiply_divide_lt;
use vstd::arithmetic::power2::lemma_pow2_pos;
use vstd::arithmetic::power2::lemma_pow2_unfold;
use vstd::arithmetic::power2::pow2;
use vstd::prelude::*;

verus! {

/// A model under construction, with the choices made at the disjunction
/// nodes: for each variable its literal, if it has one yet, and for each node
/// the index of the branch taken (0 where none was).
pub struct Trace {
    pub model: Seq<Option<Literal>>,
    pub graph: Seq<nat>,
}

/// The model after each literal of `literals` was written at the place of
/// its variable, from the first to the last.
pub open spec fn write_all(model: Seq<Option<Literal>>, literals: Seq<Literal>) -> Seq<
    Option<Literal>,
>
    decreases literals.len(),
{
    if literals.len() == 0 {
        model
    } else {
        write_all(model, literals.drop_last()).update(
            literals.last().var() as int,
            Some(literals.last()),
        )
    }
}

/// The model after the free variables `free_vars` were given the polarities
/// that the low bits of `k` hold: the last variable of the list has bit 0, the
/// one before it bit 1, and so on; a bit that is set gives the positive
/// literal. Where `erase` is set, the variables lose their literal instead.
pub open spec fn write_free(
    model: Seq<Option<Literal>>,
    k: nat,
    free_vars: Seq<Literal>,
    erase: bool,
) -> Seq<Option<Literal>>
    decreases free_vars.len(),
{
    if free_vars.len() == 0 {
        model
    } else {
        let v = free_vars.last();
        let written = model.update(
            v.var() as int,
            if erase {
                None
            } else if k % 2 == 1 {
                Some(v.flipped())
            } else {
                Some(v)
            },
        );
        write_free(written, k / 2, free_vars.drop_last(), erase)
    }
}

/// The model that holds the assumed literals and nothing else.
pub open spec fn assumed_model(assumptions: Seq<Option<bool>>) -> Seq<Option<Literal>> {
    Seq::new(
        assumptions.len(),
        |v: int|
            match assumptions[v] {
                Some(p) => Some(Literal::of(v as nat, p)),
                None => None,
            },
    )
}

impl Formula {
    /// The free variables of the root that a query leaves open.
    pub open spec fn open_root_vars(self, q: Query) -> Seq<Literal> {
        unassumed(self.root_free_vars(), q.assumptions)
    }

    /// The free variables of the `i`-th branch of node `n` that a query
    /// leaves open.
    pub open spec fn open_vars(self, q: Query, n: int, i: int) -> Seq<Literal> {
        unassumed(self.or_free_vars(n, i), q.assumptions)
    }

    /// What the model and the choices become when the model of index `k`
    /// among those of the subformula rooted at node `n` is written.
    pub open spec fn build(self, q: Query, n: int, k: nat, t: Trace) -> Trace
        decreases self.rank()[n], 1nat, 0nat,
        when self.wf() && 0 <= n < self.nodes.len()
    {
        match self.nodes[n] {
            NodeModel::True => t,
            NodeModel::False => t,
            NodeModel::And(_) => self.build_and(q, n, self.edge_list(n).len() as int, k, t),
            NodeModel::Or(_) => self.build_or(q, n, 0, k, t),
        }
    }

    /// The same for the first `i` edges of the conjunction node `n`, taken
    /// from the last to the first: the index is split into one index for
    /// each child, the last child changing fastest.
    pub open spec fn build_and(self, q: Query, n: int, i: int, k: nat, t: Trace) -> Trace
        decreases self.rank()[n], 0nat, i,
        when self.wf() && 0 <= n < self.nodes.len() && 0 <= i <= self.edge_list(n).len()
    {
        if i == 0 {
            t
        } else {
            proof {
                self.lemma_child(n, i - 1);
            }
            let c = self.count(q, self.child(n, i - 1));
            let written = Trace {
                model: write_all(t.model, self.edge(n, i - 1).propagated),
                graph: t.graph,
            };
            if c == 0 {
                written
            } else {
                self.build_and(
                    q,
                    n,
                    i - 1,
                    k / c,
                    self.build(q, self.child(n, i - 1), k % c, written),
                )
            }
        }
    }

    /// The same for the branches of the disjunction node `n` from the
    /// `i`-th on: the first branch whose share of the indices holds `k` is
    /// taken.
    pub open spec fn build_or(self, q: Query, n: int, i: int, k: nat, t: Trace) -> Trace
        decreases self.rank()[n], 0nat, self.edge_list(n).len() - i,
        when self.wf() && 0 <= n < self.nodes.len() && 0 <= i <= self.edge_list(n).len()
    {
        if i >= self.edge_list(n).len() {
            t
        } else {
            proof {
                self.lemma_child(n, i);
            }
            let total = self.branch_total(q, n, i);
            if k < total {
                let freed = write_free(t.model, k, self.open_vars(q, n, i), q.partial);
                let written = Trace {
                    model: write_all(freed, self.edge(n, i).propagated),
                    graph: t.graph.update(n, i as nat),
                };
                self.build(
                    q,
                    self.child(n, i),
                    k / pow2(self.weight(q, n, i)),
                    written,
                )
            } else {
                self.build_or(q, n, i + 1, (k - total) as nat, t)
            }
        }
    }

    /// The model of index `k` with the choices that lead to it.
    pub open spec fn trace_at(self, q: Query, k: nat) -> Trace {
        let start = Trace {
            model: write_free(
                assumed_model(q.assumptions),
                k,
                self.open_root_vars(q),
                q.partial,
            ),
            graph: Seq::new(self.nodes.len(), |n: int| 0nat),
        };
        self.build(q, 0, k / pow2(self.root_weight(q)), start)
    }

    /// The model of index `k`, where `k` is the index of a model.
    pub open spec fn model_at(self, q: Query, k: int) -> Option<Seq<Option<Literal>>> {
        if 0 <= k < self.global_count(q) {
            Some(self.trace_at(q, k as nat).model)
        } else {
            None
        }
    }
}

/// The literals of a list speak of variables below `n_vars`.
pub open spec fn vars_below(literals: Seq<Literal>, n_vars: nat) -> bool {
    forall|i: int| 0 <= i < literals.len() ==> (#[trigger] literals[i]).var() < n_vars
}

/// What is left of a list of literals after some were taken out speaks of
/// the same variables or fewer.
pub proof fn lemma_unassumed_below(literals: Seq<Literal>, mapping: Seq<Option<bool>>, n_vars: nat)
    requires
        vars_below(literals, n_vars),
    ensures
        vars_below(unassumed(literals, mapping), n_vars),
        unassumed(literals, mapping).len() <= literals.len(),
    decreases literals.len(),
{
    if literals.len() > 0 {
        lemma_unassumed_below(literals.drop_last(), mapping, n_vars);
    }
}

/// Writing literals keeps the length of a model.
pub proof fn lemma_write_all_len(model: Seq<Option<Literal>>, literals: Seq<Literal>)
    requires
        vars_below(literals, model.len()),
    ensures
        write_all(model, literals).len() == model.len(),
    decreases literals.len(),
{
    if literals.len() > 0 {
        lemma_write_all_len(model, literals.drop_last());
    }
}

/// Writing free variables keeps the length of a model.
pub proof fn lemma_write_free_len(
    model: Seq<Option<Literal>>,
    k: nat,
    free_vars: Seq<Literal>,
    erase: bool,
)
    requires
        vars_below(free_vars, model.len()),
    ensures
        write_free(model, k, free_vars, erase).len() == model.len(),
    decreases free_vars.len(),
{
    if free_vars.len() > 0 {
        let v = free_vars.last();
        let written = model.update(
            v.var() as int,
            if erase {
                None
            } else if k % 2 == 1 {
                Some(v.flipped())
            } else {
                Some(v)
            },
        );
        lemma_write_free_len(written, k / 2, free_vars.drop_last(), erase);
    }
}

/// Writes each literal of `literals` at the place of its variable.
pub fn write_literals(model: &mut Vec<Option<Literal>>, literals: &[Literal])
    requires
        vars_below(literals@, old(model)@.len()),
    ensures
        final(model)@ == write_all(old(model)@, literals@),
        final(model)@.len() == old(model)@.len(),
{
    let mut i: usize = 0;
    proof {
        assert(literals@.take(0) =~= Seq::<Literal>::empty());
    }
    while i < literals.len()
        invariant
            i <= literals.len(),
            vars_below(literals@, old(model)@.len()),
            model@.len() == old(model)@.len(),
            model@ == write_all(old(model)@, literals@.take(i as int)),
        decreases literals.len() - i,
    {
        let p = literals[i];
        proof {
            assert(literals@.take(i + 1).drop_last() =~= literals@.take(i as int));
            assert(literals@.take(i + 1).last() == p);
        }
        model.set(p.var_index(), Some(p));
        i = i + 1;
    }
    proof {
        assert(literals@.take(i as int) =~= literals@);
    }
}

/// Gives the free variables `free_vars` the polarities that the low bits of
/// `n` hold, and takes these bits out of `n`; or, where `update_with_none` is
/// set, takes the literals of the free variables out of the model and leaves
/// `n` as it is.
pub fn update_model_with_free_vars(
    model: &mut Vec<Option<Literal>>,
    n: &mut Integer,
    free_vars: &[Literal],
    update_with_none: bool,
)
    requires
        vars_below(free_vars@, old(model)@.len()),
        integer_value(*old(n)) >= 0,
    ensures
        final(model)@ == write_free(
            old(model)@,
            integer_value(*old(n)) as nat,
            free_vars@,
            update_with_none,
        ),
        final(model)@.len() == old(model)@.len(),
        integer_value(*final(n)) == if update_with_none {
            integer_value(*old(n))
        } else {
            integer_value(*old(n)) / (pow2(free_vars@.len() as nat) as int)
        },
{
    let ghost k = integer_value(*n) as nat;
    let ghost start = model@;
    let mut left: usize = free_vars.len();
    proof {
        assert(free_vars@.take(left as int) =~= free_vars@);
        assert(pow2(0) == 1) by {
            vstd::arithmetic::power2::lemma2_to64();
        }
        assert(k / pow2(0) == k);
    }
    while left > 0
        invariant
            left <= free_vars.len(),
            vars_below(free_vars@, start.len()),
            model@.len() == start.len(),
            k == integer_value(*old(n)),
            start == old(model)@,
            integer_value(*n) >= 0,
            !update_with_none ==> integer_value(*n) == k / pow2((free_vars@.len() - left) as nat),
            update_with_none ==> integer_value(*n) == k,
            write_free(start, k, free_vars@, update_with_none) == write_free(
                model@,
                if update_with_none {
                    k
                } else {
                    integer_value(*n) as nat
                },
                free_vars@.take(left as int),
                update_with_none,
            ),
        decreases left,
    {
        let v = free_vars[left - 1];
        let ghost current = free_vars@.take(left as int);
        let ghost before = model@;
        let ghost value = integer_value(*n) as nat;
        proof {
            assert(current.last() == v);
            assert(current.drop_last() =~= free_vars@.take(left - 1));
        }
        if update_with_none {
            model.set(v.var_index(), None);
            proof {
                assert(write_free(before, k, current, true) == write_free(
                    model@,
                    k / 2,
                    current.drop_last(),
                    true,
                ));
                lemma_write_free_erase(model@, k / 2, k, current.drop_last());
            }
        } else {
            if integer_is_odd(n) {
                model.set(v.var_index(), Some(v.flip()));
            } else {
                model.set(v.var_index(), Some(v));
            }
            integer_shr_assign(n, 1);
            proof {
                assert(write_free(before, value, current, false) == write_free(
                    model@,
                    value / 2,
                    current.drop_last(),
                    false,
                ));
                let done = (free_vars@.len() - left) as nat;
                assert(pow2(1) == 2) by {
                    vstd::arithmetic::power2::lemma2_to64();
                }
                lemma_pow2_pos(done);
                lemma_pow2_unfold(done + 1);
                lemma_div_denominator(k as int, pow2(done) as int, 2);
                assert(pow2(done) * 2 == pow2(done + 1)) by {
                    assert(pow2(done + 1) == 2 * pow2(done));
                }
                vstd::arithmetic::div_mod::lemma_div_pos_is_pos(value as int, 2);
            }
        }
        left = left - 1;
    }
    proof {
        assert(free_vars@.take(0) =~= Seq::<Literal>::empty());
    }
}

/// Where the variables lose their literal, the bits play no part.
pub proof fn lemma_write_free_erase(
    model: Seq<Option<Literal>>,
    k: nat,
    j: nat,
    free_vars: Seq<Literal>,
)
    ensures
        write_free(model, k, free_vars, true) == write_free(model, j, free_vars, true),
    decreases free_vars.len(),
{
    if free_vars.len() > 0 {
        let v = free_vars.last();
        let written = model.update(v.var() as int, None);
        lemma_write_free_erase(written, k / 2, j / 2, free_vars.drop_last());
        lemma_write_free_erase(written, k / 2, k, free_vars.drop_last());
        lemma_write_free_erase(written, j / 2, k, free_vars.drop_last());
    }
}

/// Returns the model that holds the assumed literals and nothing else, for
/// a formula of `n_vars` variables.
pub fn new_model(assumptions: Option<&Assumptions>, n_vars: usize) -> (model: Vec<Option<Literal>>)
    requires
        2 * n_vars <= usize::MAX + 1,
        assumptions matches Some(a) ==> a@.len() == n_vars,
    ensures
        model@ == assumed_model(
            match assumptions {
                Some(a) => a@,
                None => crate::algorithms::counting::no_assumption(n_vars as nat),
            },
        ),
        model@.len() == n_vars,
{
    let ghost mapping = match assumptions {
        Some(a) => a@,
        None => crate::algorithms::counting::no_assumption(n_vars as nat),
    };
    let mut model: Vec<Option<Literal>> = Vec::new();
    let mut v: usize = 0;
    while v < n_vars
        invariant
            v <= n_vars,
            2 * n_vars <= usize::MAX + 1,
            mapping.len() == n_vars,
            mapping == match assumptions {
                Some(a) => a@,
                None => crate::algorithms::counting::no_assumption(n_vars as nat),
            },
            model@ == assumed_model(mapping).take(v as int),
        decreases n_vars - v,
    {
        let assumed = match assumptions {
            Some(a) => a.get(v),
            None => None,
        };
        match assumed {
            Some(p) => model.push(Some(Literal::new(v, p))),
            None => model.push(None),
        }
        proof {
            assert(model@ =~= assumed_model(mapping).take(v + 1));
        }
        v = v + 1;
    }
    proof {
        assert(assumed_model(mapping).take(v as int) =~= assumed_model(mapping));
    }
    model
}

/// Returns `n_nodes` choices, all of them 0.
pub fn new_graph(n_nodes: usize) -> (graph: Vec<usize>)
    ensures
        graph_view(graph@) == Seq::new(n_nodes as nat, |n: int| 0nat),
        graph@.len() == n_nodes,
{
    let mut graph: Vec<usize> = Vec::new();
    let mut m: usize = 0;
    while m < n_nodes
        invariant
            m <= n_nodes,
            graph@.len() == m,
            forall|j: int| 0 <= j < m ==> (#[trigger] graph@[j]) == 0,
        decreases n_nodes - m,
    {
        graph.push(0);
        m = m + 1;
    }
    proof {
        assert(graph_view(graph@) =~= Seq::new(n_nodes as nat, |n: int| 0nat));
    }
    graph
}

/// The choices that a vector of branch indices holds.
pub open spec fn graph_view(graph: Seq<usize>) -> Seq<nat> {
    Seq::new(graph.len(), |n: int| graph[n] as nat)
}

/// An object that, given the order that the graph gives to the models of a
/// [`DecisionDNNF`], returns the model at a given index.
pub struct DirectAccessEngine<'a> {
    model_counter: &'a ModelCounter<'a>,
    free_vars: FreeVariables,
}

impl<'a> DirectAccessEngine<'a> {
    /// The counter that the engine relies on.
    pub closed spec fn counter(&self) -> ModelCounter<'a> {
        *self.model_counter
    }

    /// The formula whose models are accessed.
    pub open spec fn formula(&self) -> Formula {
        self.counter().formula()
    }

    /// What the models are taken under.
    pub open spec fn query(&self) -> Query {
        self.counter().query()
    }

    /// The engine holds the free variables that the query leaves open.
    pub closed spec fn wf(&self) -> bool {
        &&& self.model_counter.wf()
        &&& self.free_vars.wf()
        &&& self.free_vars.root() == self.formula().open_root_vars(self.query())
        &&& self.free_vars.or_lists().len() == self.formula().nodes.len()
        &&& forall|n: int|
            0 <= n < self.formula().nodes.len() && self.formula().nodes[n] is Or ==> (
            #[trigger] self.free_vars.or_lists()[n]).len() == self.formula().edge_list(n).len()
        &&& forall|n: int, i: int|
            0 <= n < self.formula().nodes.len() && self.formula().nodes[n] is Or && 0 <= i
                < self.formula().edge_list(n).len() ==> (#[trigger] self.free_vars.or_lists()[n][i])
                == self.formula().open_vars(self.query(), n, i)
    }

    /// Builds a new [`DirectAccessEngine`] given a [`ModelCounter`].
    ///
    /// The formula under consideration is the one of the model counter.
    #[must_use]
    pub fn new(model_counter: &'a ModelCounter<'a>) -> (r: Self)
        requires
            model_counter.wf(),
        ensures
            r.wf(),
            r.counter() == *model_counter,
    {
        let ghost f = model_counter.formula();
        let ghost q = model_counter.query();
        proof {
            model_counter.lemma_wf();
        }
        let all = model_counter.free_vars();
        let free_vars = match model_counter.assumptions() {
            Some(assumptions) => all.apply_assumptions(assumptions),
            None => {
                let none = Assumptions::new(model_counter.ddnnf().n_vars(), Vec::new());
                proof {
                    assert(none@ =~= q.assumptions);
                }
                all.apply_assumptions(&none)
            },
        };
        let r = Self { model_counter, free_vars };
        proof {
            assert forall|n: int| 0 <= n < f.nodes.len() && f.nodes[n] is Or implies (
            #[trigger] r.free_vars.or_lists()[n]).len() == f.edge_list(n).len() by {
                assert(all.or_lists()[n] == f.node_free_vars(n));
            }
            assert forall|n: int, i: int|
                0 <= n < f.nodes.len() && f.nodes[n] is Or && 0 <= i < f.edge_list(n).len() implies (
            #[trigger] r.free_vars.or_lists()[n][i]) == f.open_vars(q, n, i) by {
                assert(all.or_lists()[n] == f.node_free_vars(n));
                assert(all.or_lists()[n][i] == f.or_free_vars(n, i));
            }
        }
        r
    }

    /// Returns the number of models of the formula.
    #[must_use]
    pub fn n_models(&self) -> (r: &Integer)
        requires
            self.wf(),
        ensures
            integer_value(*r) == self.formula().global_count(self.query()),
    {
        self.model_counter.global_count()
    }

    /// Returns the model at the given index, or nothing where the index is
    /// not that of a model.
    #[must_use]
    pub fn model(&self, n: Integer) -> (r: Option<Vec<Option<Literal>>>)
        requires
            self.wf(),
        ensures
            r is Some <==> self.formula().model_at(self.query(), integer_value(n)) is Some,
            r is Some ==> r->0@ == self.formula().model_at(self.query(), integer_value(n))->0,
            r is Some ==> r->0@.len() == self.formula().n_vars,
    {
        match self.model_with_graph(n) {
            Some((model, _)) => Some(model),
            None => None,
        }
    }

    /// Returns the model at the given index, along with its model graph:
    /// for each node the index of the branch that the model takes (0 where
    /// it takes none). Nothing is returned where the index is not that of a
    /// model.
    #[must_use]
    pub fn model_with_graph(&self, n: Integer) -> (r: Option<(Vec<Option<Literal>>, Vec<usize>)>)
        requires
            self.wf(),
        ensures
            r is Some <==> 0 <= integer_value(n) < self.formula().global_count(self.query()),
            r matches Some(found) ==> (Trace {
                model: found.0@,
                graph: graph_view(found.1@),
            }) == self.formula().trace_at(self.query(), integer_value(n) as nat),
            r matches Some(found) ==> found.0@.len() == self.formula().n_vars && found.1@.len()
                == self.formula().nodes.len(),
    {
        let ghost f = self.formula();
        let ghost q = self.query();
        let ghost k = integer_value(n);
        proof {
            self.model_counter.lemma_wf();
        }
        let zero = integer_from_usize(0);
        if integer_lt(&n, &zero) || !integer_lt(&n, self.model_counter.global_count()) {
            return None;
        }
        let mut n = n;
        let ddnnf = self.model_counter.ddnnf();
        let n_vars = ddnnf.n_vars();
        let mut model = new_model(self.model_counter.assumptions(), n_vars);
        let mut model_graph = new_graph(ddnnf.n_nodes());
        proof {
            assert(model@ == assumed_model(q.assumptions));
            assert(graph_view(model_graph@) =~= Seq::new(f.nodes.len(), |n: int| 0nat));
            self.lemma_open_vars_below();
            lemma_pow2_pos(f.root_weight(q));
            let root_count = f.count(q, 0);
            let doubling = pow2(f.root_weight(q));
            assert(k < doubling * root_count) by (nonlinear_arith)
                requires
                    k < root_count * doubling,
            ;
            lemma_multiply_divide_lt(
                k,
                pow2(f.root_weight(q)) as int,
                f.count(q, 0) as int,
            );
            lemma_write_free_len(
                assumed_model(q.assumptions),
                k as nat,
                f.open_root_vars(q),
                q.partial,
            );
            if q.partial {
                assert(pow2(0) == 1) by {
                    vstd::arithmetic::power2::lemma2_to64();
                }
            }
            vstd::arithmetic::div_mod::lemma_div_pos_is_pos(k, pow2(f.root_weight(q)) as int);
        }
        update_model_with_free_vars(
            &mut model,
            &mut n,
            self.free_vars.root_free_vars(),
            self.model_counter.partial_models(),
        );
        proof {
            assert(model@ == write_free(
                assumed_model(q.assumptions),
                k as nat,
                f.open_root_vars(q),
                q.partial,
            ));
            assert(integer_value(n) == k / (pow2(f.root_weight(q)) as int));
            assert(0 <= integer_value(n) < f.count(q, 0));
        }
        self.build_model_from(&mut model, &mut model_graph, n, NodeIndex(0));
        Some((model, model_graph))
    }

    /// The free variables that the engine holds speak of variables of the
    /// formula.
    proof fn lemma_open_vars_below(&self)
        requires
            self.wf(),
        ensures
            vars_below(self.formula().open_root_vars(self.query()), self.formula().n_vars),
            self.formula().root_weight(self.query()) == if self.query().partial {
                0
            } else {
                self.formula().open_root_vars(self.query()).len()
            },
            forall|n: int, i: int|
                0 <= n < self.formula().nodes.len() && 0 <= i < self.formula().edge_list(n).len()
                    ==> vars_below(
                    #[trigger] self.formula().open_vars(self.query(), n, i),
                    self.formula().n_vars,
                ),
    {
        let f = self.formula();
        let q = self.query();
        self.model_counter.lemma_wf();
        crate::formula::involved_vars::lemma_literals_of_members(
            crate::formula::involved_vars::complement(f.involved(0), f.n_vars),
            0,
            f.n_vars,
            false,
        );
        lemma_unassumed_below(f.root_free_vars(), q.assumptions, f.n_vars);
        assert forall|n: int, i: int|
            0 <= n < f.nodes.len() && 0 <= i < f.edge_list(n).len() implies vars_below(
            #[trigger] f.open_vars(q, n, i),
            f.n_vars,
        ) by {
            crate::formula::involved_vars::lemma_literals_of_members(
                f.or_free_set(n, i),
                0,
                f.n_vars,
                false,
            );
            lemma_unassumed_below(f.or_free_vars(n, i), q.assumptions, f.n_vars);
        }
    }

    /// Writes into `model` the model of index `n` among those of the
    /// subformula rooted at the node `index`, and into `model_graph` the
    /// branches that it takes.
    #[verifier::loop_isolation(false)]
    fn build_model_from(
        &self,
        model: &mut Vec<Option<Literal>>,
        model_graph: &mut Vec<usize>,
        n: Integer,
        index: NodeIndex,
    )
        requires
            self.wf(),
            index.0 < self.formula().nodes.len(),
            0 <= integer_value(n) < self.formula().count(self.query(), index.0 as int),
            old(model)@.len() == self.formula().n_vars,
            old(model_graph)@.len() == self.formula().nodes.len(),
        ensures
            final(model)@.len() == old(model)@.len(),
            final(model_graph)@.len() == old(model_graph)@.len(),
            (Trace { model: final(model)@, graph: graph_view(final(model_graph)@) })
                == self.formula().build(
                self.query(),
                index.0 as int,
                integer_value(n) as nat,
                Trace { model: old(model)@, graph: graph_view(old(model_graph)@) },
            ),
        decreases self.formula().rank()[index.0 as int],
    {
        let ghost f = self.formula();
        let ghost q = self.query();
        let ghost node = index.0 as int;
        let ghost k0 = integer_value(n) as nat;
        let ghost t0 = Trace { model: model@, graph: graph_view(model_graph@) };
        let ddnnf = self.model_counter.ddnnf();
        let mut n = n;
        proof {
            self.model_counter.lemma_wf();
            self.lemma_open_vars_below();
        }
        match ddnnf.node(index) {
            Node::And(edges) => {
                let mut i: usize = edges.len();
                proof {
                    assert(f.count(q, node) == f.product_upto(q, node, f.edge_list(node).len() as int));
                }
                while i > 0
                    invariant
                        i <= edges.len(),
                        edge_numbers(edges@) == f.edge_list(node),
                        model@.len() == f.n_vars,
                        model_graph@.len() == f.nodes.len(),
                        0 <= integer_value(n) < f.product_upto(q, node, i as int),
                        f.build(q, node, k0, t0) == f.build_and(
                            q,
                            node,
                            i as int,
                            integer_value(n) as nat,
                            Trace { model: model@, graph: graph_view(model_graph@) },
                        ),
                    decreases i,
                {
                    let ghost k = integer_value(n) as nat;
                    let ghost t = Trace { model: model@, graph: graph_view(model_graph@) };
                    let ghost c = f.count(q, f.child(node, i - 1));
                    let ghost rest = f.product_upto(q, node, i - 1);
                    proof {
                        f.lemma_child(node, i - 1);
                        assert(f.product_upto(q, node, i as int) == rest * f.count_via(
                            q,
                            node,
                            i - 1,
                        ));
                        assert(f.count_via(q, node, i - 1) == if f.blocked(q, node, i - 1) {
                            0
                        } else {
                            c
                        });
                        assert(c > 0 && f.count_via(q, node, i - 1) == c) by (nonlinear_arith)
                            requires
                                k < rest * f.count_via(q, node, i - 1),
                                f.count_via(q, node, i - 1) == 0 || f.count_via(q, node, i - 1) == c,
                        ;
                        assert(k < c * rest) by (nonlinear_arith)
                            requires
                                k < rest * c,
                        ;
                        lemma_multiply_divide_lt(k as int, c as int, rest as int);
                        vstd::arithmetic::div_mod::lemma_div_pos_is_pos(k as int, c as int);
                        vstd::arithmetic::div_mod::lemma_mod_bound(k as int, c as int);
                        let p = f.edge(node, i - 1).propagated;
                        assert(vars_below(p, f.n_vars)) by {
                            assert forall|j: int| 0 <= j < p.len() implies (#[trigger] p[j]).var()
                                < f.n_vars by {
                                assert(f.edges[f.edge_list(node)[i - 1] as int].propagated[j].var()
                                    < f.n_vars);
                            }
                        }
                        assert(f.build_and(q, node, i as int, k, t) == f.build_and(
                            q,
                            node,
                            i - 1,
                            k / c,
                            f.build(
                                q,
                                f.child(node, i - 1),
                                k % c,
                                Trace { model: write_all(t.model, p), graph: t.graph },
                            ),
                        ));
                    }
                    let edge = ddnnf.edge(edges[i - 1]);
                    write_literals(model, edge.propagated());
                    let target = edge.target();
                    let mut child_n_models = integer_clone(self.model_counter.node_count(target));
                    integer_div_rem_mut(&mut n, &mut child_n_models);
                    self.build_model_from(model, model_graph, child_n_models, target);
                    i = i - 1;
                }
                proof {
                    assert(f.build_and(
                        q,
                        node,
                        0,
                        integer_value(n) as nat,
                        Trace { model: model@, graph: graph_view(model_graph@) },
                    ) == (Trace { model: model@, graph: graph_view(model_graph@) }));
                }
            },
            Node::Or(edges) => {
                let mut i: usize = 0;
                proof {
                    assert(f.count(q, node) == f.sum_upto(q, node, f.edge_list(node).len() as int));
                    assert(f.sum_upto(q, node, 0) == 0);
                }
                while i < edges.len()
                    invariant
                        i <= edges.len(),
                        edge_numbers(edges@) == f.edge_list(node),
                        model@ == t0.model,
                        graph_view(model_graph@) == t0.graph,
                        model_graph@.len() == f.nodes.len(),
                        0 <= integer_value(n),
                        integer_value(n) + f.sum_upto(q, node, i as int) == k0,
                        f.build(q, node, k0, t0) == f.build_or(
                            q,
                            node,
                            i as int,
                            integer_value(n) as nat,
                            t0,
                        ),
                    decreases edges.len() - i,
                {
                    let ghost k = integer_value(n) as nat;
                    let ghost w = f.weight(q, node, i as int);
                    let ghost gain = f.count_via(q, node, i as int);
                    let ghost total = f.branch_total(q, node, i as int);
                    let ghost p = f.edge(node, i as int).propagated;
                    proof {
                        f.lemma_child(node, i as int);
                        assert(f.sum_upto(q, node, i + 1) == f.sum_upto(q, node, i as int) + gain
                            * pow2(w));
                        assert(gain == if f.blocked(q, node, i as int) {
                            0
                        } else {
                            f.count(q, f.child(node, i as int))
                        });
                        assert(vars_below(p, f.n_vars)) by {
                            assert forall|j: int| 0 <= j < p.len() implies (#[trigger] p[j]).var()
                                < f.n_vars by {
                                assert(f.edges[f.edge_list(node)[i as int] as int].propagated[j].var()
                                    < f.n_vars);
                            }
                        }
                        lemma_pow2_pos(w);
                        assert(f.build_or(q, node, i as int, k, t0) == if k < total {
                            f.build(
                                q,
                                f.child(node, i as int),
                                k / pow2(w),
                                Trace {
                                    model: write_all(
                                        write_free(
                                            t0.model,
                                            k,
                                            f.open_vars(q, node, i as int),
                                            q.partial,
                                        ),
                                        p,
                                    ),
                                    graph: t0.graph.update(node, i as nat),
                                },
                            )
                        } else {
                            f.build_or(q, node, i + 1, (k - total) as nat, t0)
                        });
                    }
                    let edge = ddnnf.edge(edges[i]);
                    let target = edge.target();
                    let child_free_vars = self.free_vars.or_free_vars().child_free_vars(
                        index.0,
                        i,
                    );
                    let total_child_n_models = if self.model_counter.is_blocked(edge.propagated()) {
                        proof {
                            assert(gain * pow2(w) == 0) by (nonlinear_arith)
                                requires
                                    gain == 0,
                            ;
                        }
                        integer_from_usize(0)
                    } else {
                        let mut total = integer_clone(self.model_counter.node_count(target));
                        if !self.model_counter.partial_models() {
                            integer_shl_assign(&mut total, child_free_vars.len());
                        } else {
                            proof {
                                assert(pow2(0) == 1) by {
                                    vstd::arithmetic::power2::lemma2_to64();
                                }
                                assert(gain * pow2(0) == gain) by (nonlinear_arith)
                                    requires
                                        pow2(0) == 1,
                                ;
                            }
                        }
                        total
                    };
                    if integer_lt(&n, &total_child_n_models) {
                        proof {
                            assert(gain > 0) by (nonlinear_arith)
                                requires
                                    k < gain * pow2(w),
                            ;
                            assert(k < pow2(w) * gain) by (nonlinear_arith)
                                requires
                                    k < gain * pow2(w),
                            ;
                            lemma_multiply_divide_lt(k as int, pow2(w) as int, gain as int);
                            vstd::arithmetic::div_mod::lemma_div_pos_is_pos(
                                k as int,
                                pow2(w) as int,
                            );
                            lemma_write_free_len(
                                t0.model,
                                k,
                                f.open_vars(q, node, i as int),
                                q.partial,
                            );
                            if q.partial {
                                assert(pow2(0) == 1) by {
                                    vstd::arithmetic::power2::lemma2_to64();
                                }
                            }
                        }
                        proof {
                            assert(child_free_vars@ == f.open_vars(q, node, i as int));
                            assert(w == if q.partial {
                                0
                            } else {
                                child_free_vars@.len()
                            });
                        }
                        update_model_with_free_vars(
                            model,
                            &mut n,
                            child_free_vars,
                            self.model_counter.partial_models(),
                        );
                        proof {
                            if q.partial {
                                assert(pow2(0) == 1) by {
                                    vstd::arithmetic::power2::lemma2_to64();
                                }
                                assert(w == 0);
                                assert(k / 1 == k);
                                assert(integer_value(n) == k);
                            } else {
                                assert(w == child_free_vars@.len());
                                assert(integer_value(n) == (k as int) / (pow2(w) as int));
                            }
                            assert(integer_value(n) == (k / pow2(w)) as int);
                            assert(model@ == write_free(
                                t0.model,
                                k,
                                f.open_vars(q, node, i as int),
                                q.partial,
                            ));
                        }
                        let ghost graph_before = model_graph@;
                        model_graph.set(index.0, i);
                        proof {
                            assert(graph_view(model_graph@) =~= graph_view(graph_before).update(
                                node,
                                i as nat,
                            ));
                        }
                        write_literals(model, edge.propagated());
                        let ghost written = Trace {
                            model: model@,
                            graph: graph_view(model_graph@),
                        };
                        proof {
                            assert(written == (Trace {
                                model: write_all(
                                    write_free(
                                        t0.model,
                                        k,
                                        f.open_vars(q, node, i as int),
                                        q.partial,
                                    ),
                                    p,
                                ),
                                graph: t0.graph.update(node, i as nat),
                            }));
                            assert(f.build(q, node, k0, t0) == f.build(
                                q,
                                f.child(node, i as int),
                                k / pow2(w),
                                written,
                            ));
                        }
                        self.build_model_from(model, model_graph, n, target);
                        return ;
                    }
                    integer_sub_assign(&mut n, &total_child_n_models);
                    i = i + 1;
                }
                proof {
                    assert(false);
                }
            },
            Node::True => {},
            Node::False => {
                proof {
                    assert(false);
                }
            },
        }
    }

    /// Returns the underlying formula.
    #[must_use]
    pub fn ddnnf(&self) -> (r: &DecisionDNNF)
        ensures
            r@ == self.formula(),
    {
        self.model_counter.ddnnf()
    }

    /// Returns the counter that the engine relies on.
    pub fn model_counter(&self) -> (r: &ModelCounter<'a>)
        ensures
            *r == self.counter(),
    {
        self.model_counter
    }
}

} // verus!
