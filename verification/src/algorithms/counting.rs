//! Model counting.

use crate::formula::assumptions::any_contradicts;
use crate::formula::assumptions::assumed_polarity;
use crate::formula::assumptions::valid_assumptions;
use crate::formula::assumptions::Assumptions;
use crate::formula::decision_dnnf::edge_numbers;
use crate::formula::decision_dnnf::DecisionDNNF;
use crate::formula::decision_dnnf::Formula;
use crate::formula::decision_dnnf::Node;
use crate::formula::decision_dnnf::NodeIndex;
use crate::formula::decision_dnnf::NodeModel;
use crate::formula::free_variables::keep_unassumed;
use crate::formula::free_variables::unassumed;
use crate::formula::free_variables::FreeVariables;
use crate::formula::literal::Literal;
use crate::numbers::integer::integer_add_assign;
use crate::numbers::integer::integer_clone;
use crate::numbers::integer::integer_from_usize;
use crate::numbers::integer::integer_mul_assign;
use crate::numbers::integer::integer_shl_assign;
use crate::numbers::integer::integer_value;
use rug::Integer;
use vstd::arithmetic::power2::pow2;
use vstd::prelude::*;

verus! {

/// What a count is taken under: the polarity assumed for each variable, if
/// any, and whether paths are counted in place of models.
pub struct Query {
    pub assumptions: Seq<Option<bool>>,
    pub partial: bool,
}

/// The mapping that assumes nothing of `n_vars` variables.
pub open spec fn no_assumption(n_vars: nat) -> Seq<Option<bool>> {
    Seq::new(n_vars, |v: int| None::<bool>)
}

impl Formula {
    /// Whether the `i`-th edge of node `n` is closed to the count: models
    /// are counted and a literal of the edge contradicts an assumption.
    pub open spec fn blocked(self, q: Query, n: int, i: int) -> bool {
        !q.partial && any_contradicts(q.assumptions, self.edge(n, i).propagated)
    }

    /// The number of free variables of the `i`-th branch of the node `n`
    /// that double the count: those that no assumption fixes, and none when
    /// paths are counted.
    pub open spec fn weight(self, q: Query, n: int, i: int) -> nat {
        if q.partial {
            0
        } else {
            unassumed(self.or_free_vars(n, i), q.assumptions).len()
        }
    }

    /// The number of free variables of the root that double the count.
    pub open spec fn root_weight(self, q: Query) -> nat {
        if q.partial {
            0
        } else {
            unassumed(self.root_free_vars(), q.assumptions).len()
        }
    }

    /// The count of the subformula rooted at node `n`: 1 for true, 0 for
    /// false, the product over the edges of a conjunction node, and for a
    /// disjunction node the sum over its edges, where each free variable of
    /// a branch doubles what the branch adds.
    pub open spec fn count(self, q: Query, n: int) -> nat
        decreases self.rank()[n], 1nat, 0nat,
        when self.wf() && 0 <= n < self.nodes.len()
    {
        match self.nodes[n] {
            NodeModel::True => 1,
            NodeModel::False => 0,
            NodeModel::And(_) => self.product_upto(q, n, self.edge_list(n).len() as int),
            NodeModel::Or(_) => self.sum_upto(q, n, self.edge_list(n).len() as int),
        }
    }

    /// What the `i`-th edge of node `n` brings: nothing where it is blocked,
    /// else the count of its target.
    pub open spec fn count_via(self, q: Query, n: int, i: int) -> nat
        decreases self.rank()[n], 0nat, 0nat,
        when self.wf() && 0 <= n < self.nodes.len() && 0 <= i < self.edge_list(n).len()
    {
        proof {
            self.lemma_child(n, i);
        }
        if self.blocked(q, n, i) {
            0
        } else {
            self.count(q, self.child(n, i))
        }
    }

    /// The product of what the first `i` edges of node `n` bring.
    pub open spec fn product_upto(self, q: Query, n: int, i: int) -> nat
        decreases self.rank()[n], 0nat, i,
        when self.wf() && 0 <= n < self.nodes.len() && 0 <= i <= self.edge_list(n).len()
    {
        if i == 0 {
            1
        } else {
            self.product_upto(q, n, i - 1) * self.count_via(q, n, i - 1)
        }
    }

    /// What the `i`-th branch of the disjunction node `n` adds to its count.
    pub open spec fn branch_total(self, q: Query, n: int, i: int) -> nat {
        self.count_via(q, n, i) * pow2(self.weight(q, n, i))
    }

    /// The sum of what the first `i` branches of node `n` add.
    pub open spec fn sum_upto(self, q: Query, n: int, i: int) -> nat
        decreases self.rank()[n], 0nat, i,
        when self.wf() && 0 <= n < self.nodes.len() && 0 <= i <= self.edge_list(n).len()
    {
        if i == 0 {
            0
        } else {
            self.sum_upto(q, n, i - 1) + self.count_via(q, n, i - 1) * pow2(
                self.weight(q, n, i - 1),
            )
        }
    }

    /// The count of the whole formula: that of the root, doubled for each
    /// free variable of the root.
    pub open spec fn global_count(self, q: Query) -> nat {
        self.count(q, 0) * pow2(self.root_weight(q))
    }

    /// The count that is kept for node `n`: the global count for the root,
    /// the count of the subformula for another node.
    pub open spec fn count_from(self, q: Query, n: int) -> nat {
        if n == 0 {
            self.global_count(q)
        } else {
            self.count(q, n)
        }
    }
}

/// Nothing is taken out of a list where nothing is assumed.
pub proof fn lemma_unassumed_none(literals: Seq<Literal>, n_vars: nat)
    ensures
        unassumed(literals, no_assumption(n_vars)) == literals,
    decreases literals.len(),
{
    if literals.len() > 0 {
        lemma_unassumed_none(literals.drop_last(), n_vars);
        assert(literals.drop_last().push(literals.last()) =~= literals);
    } else {
        assert(literals =~= Seq::<Literal>::empty());
    }
}

/// The mapping that the literals of `literals` make on `n_vars` variables.
pub open spec fn mapping_of(n_vars: nat, literals: Seq<Literal>) -> Seq<Option<bool>> {
    Seq::new(n_vars, |v: int| assumed_polarity(literals, v as nat))
}

/// What is known of the nodes whose count has been computed: it is the count
/// that the formula defines.
pub open spec fn counts_ok(f: Formula, q: Query, n_models: Seq<Option<Integer>>) -> bool {
    &&& n_models.len() == f.nodes.len()
    &&& forall|n: int|
        0 <= n < f.nodes.len() && (#[trigger] n_models[n]) is Some ==> integer_value(
            n_models[n]->0,
        ) == f.count(q, n)
}

/// The weights that the branches of the disjunction nodes have in a count.
pub open spec fn weights_ok(f: Formula, q: Query, weights: Seq<Vec<usize>>) -> bool {
    &&& weights.len() == f.nodes.len()
    &&& forall|n: int|
        0 <= n < f.nodes.len() && f.nodes[n] is Or ==> (#[trigger] weights[n])@.len()
            == f.edge_list(n).len()
    &&& forall|n: int, i: int|
        0 <= n < f.nodes.len() && f.nodes[n] is Or && 0 <= i < f.edge_list(n).len() ==> (
        #[trigger] weights[n]@[i]) == f.weight(q, n, i)
}

/// A structure used to count the models of a [`DecisionDNNF`].
///
/// The count is computed when the counter is built and when its assumptions
/// change, in a time polynomial in the size of the formula. The counter can
/// count the models of the formula or, in partial mode, its paths.
pub struct ModelCounter<'a> {
    ddnnf: &'a DecisionDNNF,
    assumptions: Option<Assumptions>,
    free_vars: FreeVariables,
    n_models: Vec<Option<Integer>>,
    global: Integer,
    partial_models: bool,
}

impl<'a> ModelCounter<'a> {
    /// The formula whose models are counted.
    pub closed spec fn formula(&self) -> Formula {
        self.ddnnf@
    }

    /// What the count is taken under.
    pub closed spec fn query(&self) -> Query {
        Query {
            assumptions: match self.assumptions {
                Some(a) => a@,
                None => no_assumption(self.ddnnf@.n_vars),
            },
            partial: self.partial_models,
        }
    }

    /// The literals that were assumed, in the order in which they were
    /// given, where assumptions were set.
    pub closed spec fn assumed(&self) -> Option<Seq<Literal>> {
        match self.assumptions {
            Some(a) => Some(a.literals()),
            None => None,
        }
    }

    /// The counter holds the counts of its formula under its query.
    pub closed spec fn wf(&self) -> bool {
        &&& self.ddnnf@.wf()
        &&& self.free_vars.describes(self.ddnnf@)
        &&& self.query().assumptions.len() == self.ddnnf@.n_vars
        &&& counts_ok(self.ddnnf@, self.query(), self.n_models@)
        &&& forall|n: int| 0 <= n < self.n_models@.len() ==> (#[trigger] self.n_models@[n]) is Some
        &&& integer_value(self.global) == self.ddnnf@.global_count(self.query())
    }

    /// A counter counts the models of a well-formed formula, under a query
    /// that gives each variable a polarity or none.
    pub proof fn lemma_wf(&self)
        requires
            self.wf(),
        ensures
            self.formula().wf(),
            self.query().assumptions.len() == self.formula().n_vars,
    {
    }

    /// Builds a new model counter given a formula.
    ///
    /// The counter counts the models of the formula or, where
    /// `partial_models` is set, its paths.
    #[must_use]
    pub fn new(ddnnf: &'a DecisionDNNF, partial_models: bool) -> (r: Self)
        requires
            ddnnf@.wf(),
        ensures
            r.wf(),
            r.formula() == ddnnf@,
            r.query() == (Query {
                assumptions: no_assumption(ddnnf@.n_vars),
                partial: partial_models,
            }),
            r.assumed() is None,
    {
        let free_vars = ddnnf.free_vars();
        let mut r = Self {
            ddnnf,
            assumptions: None,
            free_vars,
            n_models: Vec::new(),
            global: integer_from_usize(0),
            partial_models,
        };
        r.compute_n_models();
        r
    }

    /// Sets assumption literals, reducing the number of models.
    ///
    /// The only models to be considered are the ones that contain all the
    /// literals marked as assumptions. Each assumption must speak of a
    /// variable of the formula, and no two of the same variable.
    pub fn set_assumptions(&mut self, assumptions: &[Literal])
        requires
            old(self).wf(),
            valid_assumptions(old(self).formula().n_vars, assumptions@),
        ensures
            final(self).wf(),
            final(self).formula() == old(self).formula(),
            final(self).query() == (Query {
                assumptions: mapping_of(old(self).formula().n_vars, assumptions@),
                partial: old(self).query().partial,
            }),
            final(self).assumed() == Some(assumptions@),
    {
        let literals = vstd::slice::slice_to_vec(assumptions);
        let assumps = Assumptions::new(self.ddnnf.n_vars(), literals);
        proof {
            assert(assumps@ =~= mapping_of(self.ddnnf@.n_vars, assumptions@));
        }
        self.assumptions = Some(assumps);
        self.compute_n_models();
    }

    /// Computes the count of each node and that of the formula.
    fn compute_n_models(&mut self)
        requires
            old(self).ddnnf@.wf(),
            old(self).free_vars.describes(old(self).ddnnf@),
            old(self).query().assumptions.len() == old(self).ddnnf@.n_vars,
        ensures
            final(self).wf(),
            final(self).ddnnf == old(self).ddnnf,
            final(self).assumptions == old(self).assumptions,
            final(self).partial_models == old(self).partial_models,
    {
        let (n_root_free_vars, or_children_free_vars_len) = self.free_vars_params();
        let n_nodes = self.ddnnf.n_nodes();
        let mut n_models: Vec<Option<Integer>> = Vec::new();
        let mut i: usize = 0;
        while i < n_nodes
            invariant
                i <= n_nodes,
                n_models@.len() == i,
                forall|n: int| 0 <= n < i ==> (#[trigger] n_models@[n]) is None,
            decreases n_nodes - i,
        {
            n_models.push(None);
            i = i + 1;
        }
        let ghost f = self.ddnnf@;
        let ghost q = self.query();
        let mut n: usize = 0;
        while n < n_nodes
            invariant
                n <= n_nodes,
                n_nodes == f.nodes.len(),
                f == self.ddnnf@,
                q == self.query(),
                f.wf(),
                q.assumptions.len() == f.n_vars,
                weights_ok(f, q, or_children_free_vars_len@),
                counts_ok(f, q, n_models@),
                forall|m: int| 0 <= m < n ==> (#[trigger] n_models@[m]) is Some,
            decreases n_nodes - n,
        {
            compute_models_from(
                self.ddnnf,
                &or_children_free_vars_len,
                NodeIndex(n),
                &mut n_models,
                &self.assumptions,
                self.partial_models,
            );
            n = n + 1;
        }
        let mut global = match &n_models[0] {
            Some(c) => integer_clone(c),
            None => integer_from_usize(0),
        };
        integer_shl_assign(&mut global, n_root_free_vars);
        self.n_models = n_models;
        self.global = global;
    }

    /// Returns the number of free variables of the root and, for each node,
    /// the number of free variables of each of its branches, as far as they
    /// double the count.
    fn free_vars_params(&self) -> (r: (usize, Vec<Vec<usize>>))
        requires
            self.ddnnf@.wf(),
            self.free_vars.describes(self.ddnnf@),
        ensures
            r.0 == self.ddnnf@.root_weight(self.query()),
            weights_ok(self.ddnnf@, self.query(), r.1@),
    {
        let ghost f = self.ddnnf@;
        let ghost q = self.query();
        let n_nodes = self.ddnnf.n_nodes();
        let or_free_vars = self.free_vars.or_free_vars();
        proof {
            assert(or_free_vars.lists().len() == n_nodes);
        }
        let mut lengths: Vec<Vec<usize>> = Vec::new();
        let n_root_free_vars;
        if self.partial_models {
            n_root_free_vars = 0;
            let mut n: usize = 0;
            while n < n_nodes
                invariant
                    n <= n_nodes,
                    n_nodes == f.nodes.len(),
                    f == self.ddnnf@,
                    q == self.query(),
                    q.partial,
                    lengths@.len() == n,
                    forall|m: int|
                        0 <= m < n && f.nodes[m] is Or ==> (#[trigger] lengths@[m])@.len()
                            == f.edge_list(m).len(),
                    forall|m: int, i: int|
                        0 <= m < n && f.nodes[m] is Or && 0 <= i < f.edge_list(m).len() ==> (
                        #[trigger] lengths@[m]@[i]) == 0,
                decreases n_nodes - n,
            {
                let mut node_lengths: Vec<usize> = Vec::new();
                if let Node::Or(children) = self.ddnnf.node(NodeIndex(n)) {
                    let mut c: usize = 0;
                    while c < children.len()
                        invariant
                            c <= children.len(),
                            node_lengths@.len() == c,
                            forall|d: int| 0 <= d < c ==> (#[trigger] node_lengths@[d]) == 0,
                        decreases children.len() - c,
                    {
                        node_lengths.push(0);
                        c = c + 1;
                    }
                    proof {
                        assert(f.edge_list(n as int) == edge_numbers(children@));
                    }
                }
                lengths.push(node_lengths);
                n = n + 1;
            }
        } else {
            match &self.assumptions {
                Some(assumps) => {
                    n_root_free_vars =
                    keep_unassumed(self.free_vars.root_free_vars(), assumps).len();
                },
                None => {
                    proof {
                        lemma_unassumed_none(f.root_free_vars(), f.n_vars);
                    }
                    n_root_free_vars = self.free_vars.root_free_vars().len();
                },
            }
            let mut n: usize = 0;
            while n < n_nodes
                invariant
                    n <= n_nodes,
                    n_nodes == f.nodes.len(),
                    f == self.ddnnf@,
                    q == self.query(),
                    !q.partial,
                    self.free_vars.describes(f),
                    or_free_vars.wf(),
                    or_free_vars.lists() == self.free_vars.or_lists(),
                    lengths@.len() == n,
                    forall|m: int|
                        0 <= m < n && f.nodes[m] is Or ==> (#[trigger] lengths@[m])@.len()
                            == f.edge_list(m).len(),
                    forall|m: int, i: int|
                        0 <= m < n && f.nodes[m] is Or && 0 <= i < f.edge_list(m).len() ==> (
                        #[trigger] lengths@[m]@[i]) == f.weight(q, m, i),
                decreases n_nodes - n,
            {
                let n_children = or_free_vars.n_children(n);
                let mut node_lengths: Vec<usize> = Vec::new();
                let mut c: usize = 0;
                proof {
                    assert(or_free_vars.lists()[n as int] == f.node_free_vars(n as int));
                }
                while c < n_children
                    invariant
                        c <= n_children,
                        n < n_nodes,
                        n_nodes == f.nodes.len(),
                        f == self.ddnnf@,
                        q == self.query(),
                        !q.partial,
                        or_free_vars.wf(),
                        or_free_vars.lists().len() == n_nodes,
                        or_free_vars.lists()[n as int] == f.node_free_vars(n as int),
                        n_children == or_free_vars.lists()[n as int].len(),
                        node_lengths@.len() == c,
                        forall|d: int|
                            0 <= d < c ==> (#[trigger] node_lengths@[d]) == unassumed(
                                f.node_free_vars(n as int)[d],
                                q.assumptions,
                            ).len(),
                    decreases n_children - c,
                {
                    let free = or_free_vars.child_free_vars(n, c);
                    let length = match &self.assumptions {
                        Some(assumps) => keep_unassumed(free, assumps).len(),
                        None => {
                            proof {
                                lemma_unassumed_none(free@, f.n_vars);
                            }
                            free.len()
                        },
                    };
                    node_lengths.push(length);
                    c = c + 1;
                }
                lengths.push(node_lengths);
                n = n + 1;
            }
        }
        (n_root_free_vars, lengths)
    }

    /// Returns the number of counted elements of the whole formula.
    #[must_use]
    pub fn global_count(&self) -> (r: &Integer)
        requires
            self.wf(),
        ensures
            integer_value(*r) == self.formula().global_count(self.query()),
    {
        &self.global
    }

    /// Returns the formula whose elements are counted.
    #[must_use]
    pub fn ddnnf(&self) -> (r: &DecisionDNNF)
        ensures
            r@ == self.formula(),
    {
        self.ddnnf
    }

    /// Returns the number of counted elements of the subformula rooted at
    /// the node whose index is given. For the root this is the count of the
    /// whole formula.
    #[must_use]
    pub fn count_from(&self, index: NodeIndex) -> (r: &Integer)
        requires
            self.wf(),
            index.0 < self.formula().nodes.len(),
        ensures
            integer_value(*r) == self.formula().count_from(self.query(), index.0 as int),
    {
        if index.0 == 0 {
            &self.global
        } else {
            match &self.n_models[index.0] {
                Some(c) => c,
                None => &self.global,
            }
        }
    }

    /// Returns the number of counted elements of the subformula rooted at
    /// the node whose index is given, the free variables of the root left
    /// aside.
    pub fn node_count(&self, index: NodeIndex) -> (r: &Integer)
        requires
            self.wf(),
            index.0 < self.formula().nodes.len(),
        ensures
            integer_value(*r) == self.formula().count(self.query(), index.0 as int),
    {
        match &self.n_models[index.0] {
            Some(c) => c,
            None => &self.global,
        }
    }

    /// Returns a Boolean value indicating if partial models are counted
    /// (`false` in case full models are counted).
    #[must_use]
    pub fn partial_models(&self) -> (r: bool)
        ensures
            r == self.query().partial,
    {
        self.partial_models
    }

    /// Returns the assumptions that the count is taken under, if any were
    /// set.
    pub fn assumptions(&self) -> (r: Option<&Assumptions>)
        ensures
            r is Some ==> r->0@ == self.query().assumptions,
            r is None ==> self.query().assumptions == no_assumption(self.formula().n_vars),
            r is Some <==> self.assumed() is Some,
            r is Some ==> r->0.literals() == self.assumed()->0,
    {
        self.assumptions.as_ref()
    }

    /// Tells whether an edge that propagates `propagated` is closed to the
    /// count: models are counted and a literal of the edge contradicts an
    /// assumption.
    pub fn is_blocked(&self, propagated: &[Literal]) -> (b: bool)
        requires
            self.wf(),
            forall|i: int|
                0 <= i < propagated@.len() ==> (#[trigger] propagated@[i]).var()
                    < self.formula().n_vars,
        ensures
            b == (!self.query().partial && any_contradicts(self.query().assumptions, propagated@)),
    {
        proof {
            lemma_no_assumption_contradicts(self.ddnnf@.n_vars, propagated@);
        }
        in_contradiction_with_assumptions(propagated, &self.assumptions, self.partial_models)
    }

    /// Returns the free variables of the formula.
    pub fn free_vars(&self) -> (r: &FreeVariables)
        requires
            self.wf(),
        ensures
            r.describes(self.formula()),
    {
        &self.free_vars
    }
}

/// Tells whether an edge that propagates `propagated` is closed to the
/// count.
fn in_contradiction_with_assumptions(
    propagated: &[Literal],
    assumptions: &Option<Assumptions>,
    partial: bool,
) -> (b: bool)
    requires
        assumptions matches Some(a) ==> forall|i: int|
            0 <= i < propagated@.len() ==> (#[trigger] propagated@[i]).var() < a@.len(),
    ensures
        b == (!partial && any_contradicts(
            match assumptions {
                Some(a) => a@,
                None => Seq::<Option<bool>>::empty(),
            },
            propagated@,
        )),
{
    if partial {
        return false;
    }
    match assumptions {
        Some(a) => a.contradicts_any(propagated),
        None => false,
    }
}

/// Computes the count of the node `index` and of what it needs of the nodes
/// that can be reached from it, unless that was done before.
fn compute_models_from(
    ddnnf: &DecisionDNNF,
    or_children_free_vars_len: &Vec<Vec<usize>>,
    index: NodeIndex,
    n_models: &mut Vec<Option<Integer>>,
    assumptions: &Option<Assumptions>,
    partial: bool,
)
    requires
        ddnnf@.wf(),
        index.0 < ddnnf@.nodes.len(),
        query_of(ddnnf@, *assumptions, partial).assumptions.len() == ddnnf@.n_vars,
        weights_ok(
            ddnnf@,
            query_of(ddnnf@, *assumptions, partial),
            or_children_free_vars_len@,
        ),
        counts_ok(ddnnf@, query_of(ddnnf@, *assumptions, partial), old(n_models)@),
    ensures
        counts_ok(ddnnf@, query_of(ddnnf@, *assumptions, partial), final(n_models)@),
        final(n_models)@[index.0 as int] is Some,
        forall|n: int|
            #![trigger old(n_models)@[n]]
            #![trigger final(n_models)@[n]]
            0 <= n < ddnnf@.nodes.len() && old(n_models)@[n] is Some ==> final(n_models)@[n]
                is Some,
    decreases ddnnf@.rank()[index.0 as int],
{
    if n_models[index.0].is_some() {
        return ;
    }
    let ghost f = ddnnf@;
    let ghost q = query_of(ddnnf@, *assumptions, partial);
    let ghost n = index.0 as int;
    let node = ddnnf.node(index);
    let count = match node {
        Node::True => integer_from_usize(1),
        Node::False => integer_from_usize(0),
        Node::And(edge_indices) => {
            let mut product = integer_from_usize(1);
            let mut i: usize = 0;
            proof {
                assert(f.product_upto(q, n, 0) == 1);
            }
            while i < edge_indices.len()
                invariant
                    i <= edge_indices.len(),
                    f == ddnnf@,
                    q == query_of(f, *assumptions, partial),
                    n == index.0,
                    f.wf(),
                    0 <= n < f.nodes.len(),
                    q.assumptions.len() == f.n_vars,
                    edge_numbers(edge_indices@) == f.edge_list(n),
                    weights_ok(f, q, or_children_free_vars_len@),
                    counts_ok(f, q, n_models@),
                    forall|m: int|
                        #![trigger old(n_models)@[m]]
                        #![trigger n_models@[m]]
                        0 <= m < f.nodes.len() && old(n_models)@[m] is Some ==> n_models@[m]
                            is Some,
                    integer_value(product) == f.product_upto(q, n, i as int),
                decreases edge_indices.len() - i,
            {
                proof {
                    f.lemma_child(n, i as int);
                    assert(f.product_upto(q, n, i + 1) == f.product_upto(q, n, i as int)
                        * f.count_via(q, n, i as int));
                    assert(f.count_via(q, n, i as int) == if f.blocked(q, n, i as int) {
                        0
                    } else {
                        f.count(q, f.child(n, i as int))
                    });
                }
                let edge = ddnnf.edge(edge_indices[i]);
                let blocked = in_contradiction_with_assumptions(
                    edge.propagated(),
                    assumptions,
                    partial,
                );
                proof {
                    lemma_no_assumption_contradicts(f.n_vars, edge@.propagated);
                    assert(blocked == f.blocked(q, n, i as int));
                }
                if blocked {
                    let zero = integer_from_usize(0);
                    integer_mul_assign(&mut product, &zero);
                } else {
                    let target = edge.target();
                    compute_models_from(
                        ddnnf,
                        or_children_free_vars_len,
                        target,
                        n_models,
                        assumptions,
                        partial,
                    );
                    match &n_models[target.0] {
                        Some(c) => {
                            integer_mul_assign(&mut product, c);
                        },
                        None => {},
                    }
                }
                i = i + 1;
            }
            proof {
                assert(f.count(q, n) == f.product_upto(q, n, f.edge_list(n).len() as int));
            }
            product
        },
        Node::Or(edge_indices) => {
            let mut sum = integer_from_usize(0);
            let mut i: usize = 0;
            proof {
                assert(f.sum_upto(q, n, 0) == 0);
            }
            while i < edge_indices.len()
                invariant
                    i <= edge_indices.len(),
                    f == ddnnf@,
                    q == query_of(f, *assumptions, partial),
                    n == index.0,
                    f.wf(),
                    0 <= n < f.nodes.len(),
                    f.nodes[n] is Or,
                    q.assumptions.len() == f.n_vars,
                    edge_numbers(edge_indices@) == f.edge_list(n),
                    weights_ok(f, q, or_children_free_vars_len@),
                    counts_ok(f, q, n_models@),
                    forall|m: int|
                        #![trigger old(n_models)@[m]]
                        #![trigger n_models@[m]]
                        0 <= m < f.nodes.len() && old(n_models)@[m] is Some ==> n_models@[m]
                            is Some,
                    integer_value(sum) == f.sum_upto(q, n, i as int),
                decreases edge_indices.len() - i,
            {
                proof {
                    f.lemma_child(n, i as int);
                    assert(f.sum_upto(q, n, i + 1) == f.sum_upto(q, n, i as int) + f.count_via(
                        q,
                        n,
                        i as int,
                    ) * pow2(f.weight(q, n, i as int)));
                    assert(f.count_via(q, n, i as int) == if f.blocked(q, n, i as int) {
                        0
                    } else {
                        f.count(q, f.child(n, i as int))
                    });
                }
                let edge = ddnnf.edge(edge_indices[i]);
                let blocked = in_contradiction_with_assumptions(
                    edge.propagated(),
                    assumptions,
                    partial,
                );
                proof {
                    lemma_no_assumption_contradicts(f.n_vars, edge@.propagated);
                    assert(blocked == f.blocked(q, n, i as int));
                }
                if !blocked {
                    let target = edge.target();
                    compute_models_from(
                        ddnnf,
                        or_children_free_vars_len,
                        target,
                        n_models,
                        assumptions,
                        partial,
                    );
                    match &n_models[target.0] {
                        Some(c) => {
                            let mut term = integer_clone(c);
                            let w = or_children_free_vars_len[index.0][i];
                            assert(w == f.weight(q, n, i as int));
                            integer_shl_assign(&mut term, w);
                            integer_add_assign(&mut sum, &term);
                        },
                        None => {},
                    }
                } else {
                    proof {
                        let c = f.count_via(q, n, i as int);
                        let p = pow2(f.weight(q, n, i as int));
                        assert(c * p == 0) by (nonlinear_arith)
                            requires
                                c == 0,
                        ;
                    }
                }
                i = i + 1;
            }
            proof {
                assert(f.count(q, n) == f.sum_upto(q, n, f.edge_list(n).len() as int));
            }
            sum
        },
    };
    n_models.set(index.0, Some(count));
}

/// The query that a counter with these assumptions and this mode answers.
pub open spec fn query_of(f: Formula, assumptions: Option<Assumptions>, partial: bool) -> Query {
    Query {
        assumptions: match assumptions {
            Some(a) => a@,
            None => no_assumption(f.n_vars),
        },
        partial,
    }
}

/// No literal contradicts a mapping that assumes nothing, nor one that is
/// empty.
pub proof fn lemma_no_assumption_contradicts(n_vars: nat, literals: Seq<Literal>)
    ensures
        !any_contradicts(no_assumption(n_vars), literals),
        !any_contradicts(Seq::<Option<bool>>::empty(), literals),
{
}

} // verus!
