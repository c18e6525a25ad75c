//! The c2d format: the text in which the c2d compiler writes a formula.
//!
//! The first line is `nnf`, the number of nodes, the number of edges and the
//! number of variables. Each following line is a node: `L` and a literal;
//! `A`, a number of children and their indices; `O`, a decision variable, a
//! number of children and their indices. A node has the index of its line,
//! from 0, and comes after its children. True is `A 0` and false is `O 0 0`.

use crate::error::Error;
use crate::formula::decision_dnnf::edge_numbers;
use crate::formula::decision_dnnf::DecisionDNNF;
use crate::formula::decision_dnnf::EdgeIndex;
use crate::formula::decision_dnnf::Formula;
use crate::formula::decision_dnnf::Node;
use crate::formula::decision_dnnf::NodeIndex;
use crate::formula::decision_dnnf::NodeModel;
use crate::formula::literal::Literal;
use vstd::prelude::*;

verus! {

/// The decimal digits of `n`, as bytes.
pub open spec fn decimal(n: nat) -> Seq<u8>
    decreases n,
{
    if n < 10 {
        seq![(0x30 + n) as u8]
    } else {
        decimal(n / 10).push((0x30 + n % 10) as u8)
    }
}

/// Adds to `out` the decimal digits of `n`.
pub fn push_decimal(out: &mut Vec<u8>, n: usize)
    ensures
        final(out)@ == old(out)@ + decimal(n as nat),
    decreases n,
{
    if n >= 10 {
        push_decimal(out, n / 10);
    }
    out.push(0x30 + (n % 10) as u8);
    proof {
        assert(out@ =~= old(out)@ + decimal(n as nat));
    }
}

/// Whether a literal of `literals` is of the variable `var`.
pub open spec fn mentions(literals: Seq<Literal>, var: nat) -> bool {
    exists|j: int| 0 <= j < literals.len() && (#[trigger] literals[j]).var() == var
}

/// Whether each of the edges `edges` of the formula propagates a literal of
/// the variable `var`.
pub open spec fn decides(f: Formula, edges: Seq<nat>, var: nat) -> bool {
    forall|i: int|
        0 <= i < edges.len() ==> mentions(f.edges[(#[trigger] edges[i]) as int].propagated, var)
}

impl Formula {
    /// Whether a variable decides between the branches of node `n`: each
    /// branch propagates a literal of it.
    pub open spec fn has_decision_var(self, n: int) -> bool {
        exists|var: nat| decides(self, self.edge_list(n), var)
    }

    /// Whether every disjunction node is a decision node.
    pub open spec fn all_decisions(self) -> bool {
        forall|n: int|
            0 <= n < self.nodes.len() && (#[trigger] self.nodes[n]) is Or ==> self.has_decision_var(
                n,
            )
    }
}

/// What is written so far: the lines, the index of the next line, the
/// number of children written, and the indices of the lines that can be
/// used again (that of true, that of false, and that of each literal).
pub struct WriterModel {
    pub body: Seq<u8>,
    pub next: usize,
    pub n_edges: usize,
    pub true_index: Option<usize>,
    pub false_index: Option<usize>,
    pub positive: Seq<Option<usize>>,
    pub negative: Seq<Option<usize>>,
}

/// Nothing written yet, for a formula of `n_vars` variables.
pub open spec fn nothing_written(n_vars: nat) -> WriterModel {
    WriterModel {
        body: Seq::empty(),
        next: 0,
        n_edges: 0,
        true_index: None,
        false_index: None,
        positive: Seq::new(n_vars, |v: int| None::<usize>),
        negative: Seq::new(n_vars, |v: int| None::<usize>),
    }
}

/// The index after `index`, which starts again from 0 after the largest.
pub open spec fn next_index(index: usize) -> usize {
    if index == usize::MAX {
        0
    } else {
        (index + 1) as usize
    }
}

/// The count `count` and `more`, which starts again from 0 after the
/// largest.
pub open spec fn more_edges(count: usize, more: nat) -> usize {
    if count + more > usize::MAX {
        (count + more - (usize::MAX + 1)) as usize
    } else {
        (count + more) as usize
    }
}

/// The true node written, unless it was: the line `A 0`.
pub open spec fn with_true(m: WriterModel) -> (WriterModel, usize) {
    match m.true_index {
        Some(index) => (m, index),
        None => (
            WriterModel {
                body: m.body + seq![0x41u8, 0x20, 0x30, 0x0a],
                next: next_index(m.next),
                true_index: Some(m.next),
                ..m
            },
            m.next,
        ),
    }
}

/// The false node written, unless it was: the line `O 0 0`.
pub open spec fn with_false(m: WriterModel) -> (WriterModel, usize) {
    match m.false_index {
        Some(index) => (m, index),
        None => (
            WriterModel {
                body: m.body + seq![0x4fu8, 0x20, 0x30, 0x20, 0x30, 0x0a],
                next: next_index(m.next),
                false_index: Some(m.next),
                ..m
            },
            m.next,
        ),
    }
}

/// The line of a literal: `L` and the literal in DIMACS notation.
pub open spec fn literal_line(l: Literal) -> Seq<u8> {
    seq![0x4cu8, 0x20] + if l.is_positive() {
        Seq::<u8>::empty()
    } else {
        seq![0x2du8]
    } + decimal(l.var() + 1) + seq![0x0au8]
}

/// The literal `l` written, unless it was.
pub open spec fn with_literal(m: WriterModel, l: Literal) -> (WriterModel, usize) {
    let known = if l.is_positive() {
        m.positive[l.var() as int]
    } else {
        m.negative[l.var() as int]
    };
    match known {
        Some(index) => (m, index),
        None => (
            WriterModel {
                body: m.body + literal_line(l),
                next: next_index(m.next),
                positive: if l.is_positive() {
                    m.positive.update(l.var() as int, Some(m.next))
                } else {
                    m.positive
                },
                negative: if l.is_positive() {
                    m.negative
                } else {
                    m.negative.update(l.var() as int, Some(m.next))
                },
                ..m
            },
            m.next,
        ),
    }
}

/// The first `i` literals of `literals` written, unless they were, with
/// their indices.
pub open spec fn with_literals(m: WriterModel, literals: Seq<Literal>, i: int) -> (
    WriterModel,
    Seq<usize>,
)
    decreases i,
{
    if i <= 0 {
        (m, Seq::empty())
    } else {
        let before = with_literals(m, literals, i - 1);
        let last = with_literal(before.0, literals[i - 1]);
        (last.0, before.1.push(last.1))
    }
}

/// The text of the indices `indices`, each after a blank.
pub open spec fn each_index(indices: Seq<usize>) -> Seq<u8>
    decreases indices.len(),
{
    if indices.len() == 0 {
        Seq::empty()
    } else {
        each_index(indices.drop_last()) + seq![0x20u8] + decimal(indices.last() as nat)
    }
}

/// The end of the line of a node: the number of its children and their
/// indices.
pub open spec fn children_text(indices: Seq<usize>) -> Seq<u8> {
    decimal(indices.len()) + each_index(indices) + seq![0x0au8]
}

/// A conjunction of the nodes `indices` written: the line `A`, the number
/// of children and their indices.
pub open spec fn with_and(m: WriterModel, indices: Seq<usize>) -> (WriterModel, usize) {
    (
        WriterModel {
            body: m.body + seq![0x41u8, 0x20] + children_text(indices),
            next: next_index(m.next),
            n_edges: more_edges(m.n_edges, indices.len()),
            ..m
        },
        m.next,
    )
}

/// A decision on the variable `var` between the nodes `indices` written:
/// the line `O`, the variable in DIMACS notation (0 where there is no
/// child), the number of children and their indices.
pub open spec fn with_or(m: WriterModel, indices: Seq<usize>, var: nat) -> (WriterModel, usize) {
    (
        WriterModel {
            body: m.body + seq![0x4fu8, 0x20] + if indices.len() == 0 {
                seq![0x30u8]
            } else {
                decimal(var + 1)
            } + seq![0x20u8] + children_text(indices),
            next: next_index(m.next),
            n_edges: more_edges(m.n_edges, indices.len()),
            ..m
        },
        m.next,
    )
}

/// The first variable of the first of the edges `edges`, from its `c`-th
/// literal on, that decides between the edges, if there is one.
pub open spec fn first_decision(f: Formula, edges: Seq<nat>, c: int) -> Option<nat>
    decreases f.edges[edges[0] as int].propagated.len() - c,
{
    let first = f.edges[edges[0] as int].propagated;
    if c < 0 || c >= first.len() {
        None
    } else if decides(f, edges, first[c].var()) {
        Some(first[c].var())
    } else {
        first_decision(f, edges, c + 1)
    }
}

impl Formula {
    /// What is written after the node `n` was, together with the literals
    /// `literals` of the edge that leads to it, with the index of the line
    /// that stands for them. The children come first, each with the literals
    /// of its edge. A conjunction node is the conjunction of its children
    /// and of the literals. A disjunction node is a decision between its
    /// children, and stands in a conjunction after the literals; it is an
    /// error where no variable decides between its children. A true node is
    /// true, the literal, or the conjunction of the literals. A false node
    /// is false.
    pub open spec fn emit(self, m: WriterModel, n: int, literals: Seq<Literal>) -> Result<
        (WriterModel, usize),
        Error,
    >
        decreases self.rank()[n], 1nat, 0nat,
        when self.wf() && 0 <= n < self.nodes.len()
    {
        match self.nodes[n] {
            NodeModel::And(_) => match self.emit_children(m, n, self.edge_list(n).len() as int) {
                Err(e) => Err(e),
                Ok(children) => {
                    let written = with_literals(children.0, literals, literals.len() as int);
                    Ok(with_and(written.0, children.1 + written.1))
                },
            },
            NodeModel::Or(_) => match self.emit_children(m, n, self.edge_list(n).len() as int) {
                Err(e) => Err(e),
                Ok(children) => {
                    let var = if self.edge_list(n).len() == 0 {
                        Some(0nat)
                    } else {
                        first_decision(self, self.edge_list(n), 0)
                    };
                    match var {
                        None => Err(Error::NotADecisionNode(n as usize)),
                        Some(var) => {
                            let decision = with_or(children.0, children.1, var);
                            let written = with_literals(
                                decision.0,
                                literals,
                                literals.len() as int,
                            );
                            Ok(with_and(written.0, written.1.push(decision.1)))
                        },
                    }
                },
            },
            NodeModel::True => if literals.len() == 0 {
                Ok(with_true(m))
            } else if literals.len() == 1 {
                Ok(with_literal(m, literals[0]))
            } else {
                let written = with_literals(m, literals, literals.len() as int);
                Ok(with_and(written.0, written.1))
            },
            NodeModel::False => Ok(with_false(m)),
        }
    }

    /// What is written after the first `i` children of the node `n` were,
    /// with the indices of the lines that stand for them.
    pub open spec fn emit_children(self, m: WriterModel, n: int, i: int) -> Result<
        (WriterModel, Seq<usize>),
        Error,
    >
        decreases self.rank()[n], 0nat, i,
        when self.wf() && 0 <= n < self.nodes.len() && 0 <= i <= self.edge_list(n).len()
    {
        if i == 0 {
            Ok((m, Seq::empty()))
        } else {
            proof {
                self.lemma_child(n, i - 1);
            }
            match self.emit_children(m, n, i - 1) {
                Err(e) => Err(e),
                Ok(before) => match self.emit(
                    before.0,
                    self.child(n, i - 1),
                    self.edge(n, i - 1).propagated,
                ) {
                    Err(e) => Err(e),
                    Ok(child) => Ok((child.0, before.1.push(child.1))),
                },
            }
        }
    }

    /// The text that writes the formula in the c2d format: the line `nnf`
    /// with the number of lines, the number of children and the number of
    /// variables, then the lines of the nodes.
    pub open spec fn c2d_text(self) -> Result<Seq<u8>, Error> {
        match self.emit(nothing_written(self.n_vars), 0, Seq::empty()) {
            Err(e) => Err(e),
            Ok(written) => Ok(
                seq![0x6eu8, 0x6e, 0x66, 0x20] + decimal(written.0.next as nat) + seq![0x20u8]
                    + decimal(written.0.n_edges as nat) + seq![0x20u8] + decimal(self.n_vars)
                    + seq![0x0au8] + written.0.body,
            ),
        }
    }

    /// An error that stops the writing of the first children of a node
    /// stops the writing of all of them.
    pub proof fn lemma_emit_stops(self, m: WriterModel, n: int, i: int, j: int)
        requires
            self.wf(),
            0 <= n < self.nodes.len(),
            0 <= i <= j <= self.edge_list(n).len(),
            self.emit_children(m, n, i) is Err,
        ensures
            self.emit_children(m, n, j) == self.emit_children(m, n, i),
        decreases j - i,
    {
        if i < j {
            self.lemma_emit_stops(m, n, i, j - 1);
        }
    }
}

/// What is written so far, with the indices of the lines that can be used
/// again.
struct C2DFormatWriterData {
    body: Vec<u8>,
    next_index: usize,
    n_edges: usize,
    true_index: Option<usize>,
    false_index: Option<usize>,
    positive_literal_indices: Vec<Option<usize>>,
    negative_literal_indices: Vec<Option<usize>>,
}

impl View for C2DFormatWriterData {
    type V = WriterModel;

    closed spec fn view(&self) -> WriterModel {
        WriterModel {
            body: self.body@,
            next: self.next_index,
            n_edges: self.n_edges,
            true_index: self.true_index,
            false_index: self.false_index,
            positive: self.positive_literal_indices@,
            negative: self.negative_literal_indices@,
        }
    }
}

impl C2DFormatWriterData {
    spec fn wf(&self, f: Formula) -> bool {
        &&& self.positive_literal_indices@.len() == f.n_vars
        &&& self.negative_literal_indices@.len() == f.n_vars
    }

    fn new(dnnf: &DecisionDNNF) -> (r: Self)
        ensures
            r.wf(dnnf@),
            r@ == nothing_written(dnnf@.n_vars),
    {
        let n_vars = dnnf.n_vars();
        let mut positive: Vec<Option<usize>> = Vec::new();
        let mut negative: Vec<Option<usize>> = Vec::new();
        let mut v: usize = 0;
        while v < n_vars
            invariant
                v <= n_vars,
                positive@.len() == v,
                negative@.len() == v,
                forall|j: int| 0 <= j < v ==> (#[trigger] positive@[j]) is None,
                forall|j: int| 0 <= j < v ==> (#[trigger] negative@[j]) is None,
            decreases n_vars - v,
        {
            positive.push(None);
            negative.push(None);
            v = v + 1;
        }
        let r = Self {
            body: Vec::new(),
            next_index: 0,
            n_edges: 0,
            true_index: None,
            false_index: None,
            positive_literal_indices: positive,
            negative_literal_indices: negative,
        };
        proof {
            assert(r@.positive =~= nothing_written(dnnf@.n_vars).positive);
            assert(r@.negative =~= nothing_written(dnnf@.n_vars).negative);
            assert(r@.body =~= nothing_written(dnnf@.n_vars).body);
        }
        r
    }

    /// Takes the index of a new line.
    fn new_line(&mut self) -> (r: usize)
        ensures
            r == old(self).next_index,
            *final(self) == (C2DFormatWriterData {
                next_index: next_index(old(self).next_index),
                ..*old(self)
            }),
    {
        let index = self.next_index;
        self.next_index = self.next_index.wrapping_add(1);
        index
    }

    /// Writes the true node, unless it was written, and returns its index.
    fn write_true(&mut self, Ghost(f): Ghost<Formula>) -> (r: usize)
        requires
            old(self).wf(f),
        ensures
            final(self).wf(f),
            (final(self)@, r) == with_true(old(self)@),
    {
        match self.true_index {
            Some(index) => index,
            None => {
                let index = self.new_line();
                self.true_index = Some(index);
                self.body.push(0x41);
                self.body.push(0x20);
                self.body.push(0x30);
                self.body.push(0x0a);
                proof {
                    assert(self.body@ =~= old(self).body@ + seq![0x41u8, 0x20, 0x30, 0x0a]);
                }
                index
            },
        }
    }

    /// Writes the false node, unless it was written, and returns its
    /// index.
    fn write_false(&mut self, Ghost(f): Ghost<Formula>) -> (r: usize)
        requires
            old(self).wf(f),
        ensures
            final(self).wf(f),
            (final(self)@, r) == with_false(old(self)@),
    {
        match self.false_index {
            Some(index) => index,
            None => {
                let index = self.new_line();
                self.false_index = Some(index);
                self.body.push(0x4f);
                self.body.push(0x20);
                self.body.push(0x30);
                self.body.push(0x20);
                self.body.push(0x30);
                self.body.push(0x0a);
                proof {
                    assert(self.body@ =~= old(self).body@ + seq![
                        0x4fu8,
                        0x20,
                        0x30,
                        0x20,
                        0x30,
                        0x0a,
                    ]);
                }
                index
            },
        }
    }

    /// Writes the literal `l`, unless it was written, and returns its
    /// index.
    fn write_literal(&mut self, l: Literal, Ghost(f): Ghost<Formula>) -> (r: usize)
        requires
            old(self).wf(f),
            l.var() < f.n_vars,
        ensures
            final(self).wf(f),
            (final(self)@, r) == with_literal(old(self)@, l),
    {
        let var = l.var_index();
        let known = if l.polarity() {
            self.positive_literal_indices[var]
        } else {
            self.negative_literal_indices[var]
        };
        match known {
            Some(index) => index,
            None => {
                let index = self.new_line();
                if l.polarity() {
                    self.positive_literal_indices.set(var, Some(index));
                } else {
                    self.negative_literal_indices.set(var, Some(index));
                }
                self.body.push(0x4c);
                self.body.push(0x20);
                if !l.polarity() {
                    self.body.push(0x2d);
                }
                proof {
                    l.lemma_of_self();
                }
                push_decimal(&mut self.body, var + 1);
                self.body.push(0x0a);
                proof {
                    assert(self.body@ =~= old(self).body@ + literal_line(l));
                }
                index
            },
        }
    }

    /// Adds the indices of `node_indices` to the current line, and ends
    /// it.
    fn write_children(&mut self, node_indices: &Vec<usize>)
        ensures
            *final(self) == (C2DFormatWriterData {
                body: final(self).body,
                n_edges: more_edges(old(self).n_edges, node_indices@.len()),
                ..*old(self)
            }),
            final(self).body@ == old(self).body@ + children_text(node_indices@),
    {
        push_decimal(&mut self.body, node_indices.len());
        let ghost start = self.body@;
        let mut i: usize = 0;
        proof {
            assert(node_indices@.take(0) =~= Seq::<usize>::empty());
            assert(self.body@ =~= start + each_index(node_indices@.take(0)));
        }
        while i < node_indices.len()
            invariant
                i <= node_indices.len(),
                *self == (C2DFormatWriterData { body: self.body, ..*old(self) }),
                self.body@ == start + each_index(node_indices@.take(i as int)),
            decreases node_indices.len() - i,
        {
            self.body.push(0x20);
            push_decimal(&mut self.body, node_indices[i]);
            proof {
                let next = node_indices@.take(i + 1);
                assert(next.drop_last() =~= node_indices@.take(i as int));
                assert(next.last() == node_indices@[i as int]);
                assert(self.body@ =~= start + each_index(next));
            }
            i = i + 1;
        }
        self.body.push(0x0a);
        self.n_edges = self.n_edges.wrapping_add(node_indices.len());
        proof {
            assert(node_indices@.take(i as int) =~= node_indices@);
            assert(self.body@ =~= old(self).body@ + children_text(node_indices@));
        }
    }

    /// Writes a conjunction of the nodes of `node_indices`, and returns its
    /// index.
    fn write_and(&mut self, node_indices: &Vec<usize>, Ghost(f): Ghost<Formula>) -> (r: usize)
        requires
            old(self).wf(f),
        ensures
            final(self).wf(f),
            (final(self)@, r) == with_and(old(self)@, node_indices@),
    {
        let index = self.new_line();
        self.body.push(0x41);
        self.body.push(0x20);
        self.write_children(node_indices);
        proof {
            assert(self.body@ =~= old(self).body@ + seq![0x41u8, 0x20] + children_text(
                node_indices@,
            ));
        }
        index
    }

    /// Writes a decision on the variable `conflicting_var` between the
    /// nodes of `node_indices`, and returns its index.
    fn write_or(&mut self, node_indices: &Vec<usize>, conflicting_var: usize, Ghost(f): Ghost<Formula>) -> (r:
        usize)
        requires
            old(self).wf(f),
            conflicting_var < f.n_vars || node_indices@.len() == 0,
            2 * f.n_vars <= usize::MAX + 1,
        ensures
            final(self).wf(f),
            (final(self)@, r) == with_or(old(self)@, node_indices@, conflicting_var as nat),
    {
        let index = self.new_line();
        self.body.push(0x4f);
        self.body.push(0x20);
        if node_indices.len() == 0 {
            self.body.push(0x30);
        } else {
            push_decimal(&mut self.body, conflicting_var + 1);
        }
        self.body.push(0x20);
        self.write_children(node_indices);
        proof {
            assert(self.body@ =~= old(self).body@ + seq![0x4fu8, 0x20] + if node_indices@.len()
                == 0 {
                seq![0x30u8]
            } else {
                decimal((conflicting_var + 1) as nat)
            } + seq![0x20u8] + children_text(node_indices@));
        }
        index
    }
}

/// Tells whether a literal of `literals` is of the variable `var`.
fn holds_var(literals: &[Literal], var: usize) -> (r: bool)
    ensures
        r == mentions(literals@, var as nat),
{
    let mut j: usize = 0;
    while j < literals.len()
        invariant
            j <= literals.len(),
            forall|k: int| 0 <= k < j ==> (#[trigger] literals@[k]).var() != var,
        decreases literals.len() - j,
    {
        if literals[j].var_index() == var {
            return true;
        }
        j = j + 1;
    }
    false
}

/// Returns a variable that decides between the edges `edges`, if there is
/// one: the first variable of the first edge of which each edge propagates a
/// literal.
#[verifier::loop_isolation(false)]
fn decision_var(dnnf: &DecisionDNNF, edges: &[EdgeIndex]) -> (r: Option<usize>)
    requires
        dnnf@.well_indexed(),
        forall|i: int| 0 <= i < edges@.len() ==> (#[trigger] edges@[i]).0 < dnnf@.edges.len(),
        edges@.len() > 0,
    ensures
        r matches Some(var) ==> var < dnnf@.n_vars && decides(dnnf@, edge_numbers(edges@), var as nat),
        r is None ==> !exists|var: nat| decides(dnnf@, edge_numbers(edges@), var),
        match first_decision(dnnf@, edge_numbers(edges@), 0) {
            Some(var) => r matches Some(found) && found as nat == var,
            None => r is None,
        },
{
    let ghost f = dnnf@;
    let ghost list = edge_numbers(edges@);
    let first = dnnf.edge(edges[0]).propagated();
    let mut c: usize = 0;
    while c < first.len()
        invariant
            c <= first.len(),
            forall|k: int| 0 <= k < c ==> !decides(f, list, (#[trigger] first@[k]).var()),
            first@ == f.edges[list[0] as int].propagated,
            first_decision(f, list, 0) == first_decision(f, list, c as int),
        decreases first.len() - c,
    {
        let var = first[c].var_index();
        let mut i: usize = 0;
        let mut all = true;
        while i < edges.len() && all
            invariant
                i <= edges.len(),
                all ==> forall|a: int|
                    0 <= a < i ==> mentions(f.edges[(#[trigger] list[a]) as int].propagated, var as nat),
                !all ==> !decides(f, list, var as nat),
            decreases edges.len() - i + if all {
                1nat
            } else {
                0nat
            },
        {
            let edge = dnnf.edge(edges[i]);
            proof {
                assert(f.edges[list[i as int] as int] == edge@);
            }
            if holds_var(edge.propagated(), var) {
                i = i + 1;
            } else {
                all = false;
            }
        }
        if all {
            proof {
                assert(first@[c as int].var() < f.n_vars) by {
                    assert(f.edges[list[0] as int].propagated[c as int].var() < f.n_vars);
                }
            }
            return Some(var);
        }
        c = c + 1;
    }
    proof {
        assert forall|var: nat| !decides(f, list, var) by {
            if decides(f, list, var) {
                assert(mentions(f.edges[list[0] as int].propagated, var));
                let j = choose|j: int| 0 <= j < first@.len() && (#[trigger] first@[j]).var() == var;
                assert(!decides(f, list, first@[j].var()));
            }
        }
    }
    None
}

/// A structure used to write a formula in the c2d format.
pub struct Writer;

impl Writer {
    /// Returns the text that writes the formula in the c2d format.
    ///
    /// An error is returned where a disjunction node is no decision node:
    /// no variable has a literal in each of its branches.
    pub fn write(dnnf: &DecisionDNNF) -> (r: Result<Vec<u8>, Error>)
        requires
            dnnf@.wf(),
        ensures
            match dnnf@.c2d_text() {
                Ok(text) => r matches Ok(found) && found@ == text,
                Err(e) => r == Err::<Vec<u8>, Error>(e),
            },
            dnnf@.all_decisions() ==> r is Ok,
            r matches Err(e) ==> exists|n: int|
                0 <= n < dnnf@.nodes.len() && dnnf@.nodes[n] is Or && !dnnf@.has_decision_var(n)
                    && e == Error::NotADecisionNode(n as usize),
    {
        let mut writer_data = C2DFormatWriterData::new(dnnf);
        let none: Vec<Literal> = Vec::new();
        proof {
            assert(none@ =~= Seq::<Literal>::empty());
        }
        match Self::write_from(&mut writer_data, dnnf, NodeIndex(0), none.as_slice()) {
            Err(e) => Err(e),
            Ok(_) => {
                let mut out: Vec<u8> = Vec::new();
                out.push(0x6e);
                out.push(0x6e);
                out.push(0x66);
                out.push(0x20);
                push_decimal(&mut out, writer_data.next_index);
                out.push(0x20);
                push_decimal(&mut out, writer_data.n_edges);
                out.push(0x20);
                push_decimal(&mut out, dnnf.n_vars());
                out.push(0x0a);
                let ghost lines = writer_data@;
                let mut body = writer_data.body;
                out.append(&mut body);
                proof {
                    assert(out@ =~= seq![0x6eu8, 0x6e, 0x66, 0x20] + decimal(lines.next as nat)
                        + seq![0x20u8] + decimal(lines.n_edges as nat) + seq![0x20u8] + decimal(
                        dnnf@.n_vars,
                    ) + seq![0x0au8] + lines.body);
                }
                Ok(out)
            },
        }
    }

    /// Writes the literals of `propagations`, and returns their indices.
    fn write_literals(
        writer_data: &mut C2DFormatWriterData,
        propagations: &[Literal],
        Ghost(f): Ghost<Formula>,
    ) -> (r: Vec<usize>)
        requires
            old(writer_data).wf(f),
            forall|j: int| 0 <= j < propagations@.len() ==> (#[trigger] propagations@[j]).var() < f.n_vars,
        ensures
            final(writer_data).wf(f),
            (final(writer_data)@, r@) == with_literals(
                old(writer_data)@,
                propagations@,
                propagations@.len() as int,
            ),
    {
        let mut indices: Vec<usize> = Vec::new();
        let mut j: usize = 0;
        proof {
            assert(indices@ =~= Seq::<usize>::empty());
        }
        while j < propagations.len()
            invariant
                j <= propagations.len(),
                writer_data.wf(f),
                forall|k: int|
                    0 <= k < propagations@.len() ==> (#[trigger] propagations@[k]).var() < f.n_vars,
                (writer_data@, indices@) == with_literals(
                    old(writer_data)@,
                    propagations@,
                    j as int,
                ),
            decreases propagations.len() - j,
        {
            indices.push(writer_data.write_literal(propagations[j], Ghost(f)));
            j = j + 1;
        }
        indices
    }

    /// Writes the children of the node `node_index`, whose edges are
    /// `edges`, each with the literals of its edge, and returns the indices
    /// of what stands for them.
    fn write_children_of(
        writer_data: &mut C2DFormatWriterData,
        dnnf: &DecisionDNNF,
        node_index: NodeIndex,
        edges: &Vec<EdgeIndex>,
    ) -> (r: Result<Vec<usize>, Error>)
        requires
            dnnf@.wf(),
            node_index.0 < dnnf@.nodes.len(),
            edge_numbers(edges@) == dnnf@.edge_list(node_index.0 as int),
            old(writer_data).wf(dnnf@),
        ensures
            final(writer_data).wf(dnnf@),
            match dnnf@.emit_children(
                old(writer_data)@,
                node_index.0 as int,
                edges@.len() as int,
            ) {
                Ok(written) => r matches Ok(found) && found@ == written.1 && final(writer_data)@
                    == written.0,
                Err(e) => r == Err::<Vec<usize>, Error>(e),
            },
            dnnf@.all_decisions() ==> r is Ok,
            r matches Err(e) ==> exists|n: int|
                0 <= n < dnnf@.nodes.len() && dnnf@.nodes[n] is Or && !dnnf@.has_decision_var(n)
                    && e == Error::NotADecisionNode(n as usize),
        decreases dnnf@.rank()[node_index.0 as int], 0nat,
    {
        let ghost f = dnnf@;
        let ghost n = node_index.0 as int;
        let ghost start = writer_data@;
        let mut children_new_indices: Vec<usize> = Vec::new();
        let mut i: usize = 0;
        proof {
            assert(children_new_indices@ =~= Seq::<usize>::empty());
        }
        while i < edges.len()
            invariant
                i <= edges.len(),
                dnnf@ == f,
                f.wf(),
                0 <= n < f.nodes.len(),
                n == node_index.0,
                edge_numbers(edges@) == f.edge_list(n),
                start == old(writer_data)@,
                writer_data.wf(f),
                f.emit_children(start, n, i as int) == Ok::<(WriterModel, Seq<usize>), Error>(
                    (writer_data@, children_new_indices@),
                ),
            decreases edges.len() - i,
        {
            proof {
                f.lemma_child(n, i as int);
                crate::algorithms::model_enumerator::lemma_propagated_in_range(f, n, i as int);
                assert(edge_numbers(edges@)[i as int] == edges@[i as int].0);
            }
            let edge = dnnf.edge(edges[i]);
            let ghost before = writer_data@;
            match Self::write_from(writer_data, dnnf, edge.target(), edge.propagated()) {
                Err(e) => {
                    proof {
                        assert(f.emit_children(start, n, i + 1) == Err::<
                            (WriterModel, Seq<usize>),
                            Error,
                        >(e));
                        f.lemma_emit_stops(start, n, i + 1, edges@.len() as int);
                    }
                    return Err(e);
                },
                Ok(index) => {
                    children_new_indices.push(index);
                },
            }
            i = i + 1;
        }
        Ok(children_new_indices)
    }

    /// Writes the node `node_index` together with the literals
    /// `propagations` of the edge that leads to it, after its children, and
    /// returns the index of what stands for them.
    fn write_from(
        writer_data: &mut C2DFormatWriterData,
        dnnf: &DecisionDNNF,
        node_index: NodeIndex,
        propagations: &[Literal],
    ) -> (r: Result<usize, Error>)
        requires
            dnnf@.wf(),
            node_index.0 < dnnf@.nodes.len(),
            old(writer_data).wf(dnnf@),
            forall|j: int|
                0 <= j < propagations@.len() ==> (#[trigger] propagations@[j]).var() < dnnf@.n_vars,
        ensures
            final(writer_data).wf(dnnf@),
            match dnnf@.emit(old(writer_data)@, node_index.0 as int, propagations@) {
                Ok(written) => r == Ok::<usize, Error>(written.1) && final(writer_data)@
                    == written.0,
                Err(e) => r == Err::<usize, Error>(e),
            },
            dnnf@.all_decisions() ==> r is Ok,
            r matches Err(e) ==> exists|n: int|
                0 <= n < dnnf@.nodes.len() && dnnf@.nodes[n] is Or && !dnnf@.has_decision_var(n)
                    && e == Error::NotADecisionNode(n as usize),
        decreases dnnf@.rank()[node_index.0 as int], 1nat,
    {
        let ghost f = dnnf@;
        let ghost n = node_index.0 as int;
        let ghost start = writer_data@;
        match dnnf.node(node_index) {
            Node::And(children_nodes) => {
                let mut children_new_indices = match Self::write_children_of(
                    writer_data,
                    dnnf,
                    node_index,
                    children_nodes,
                ) {
                    Ok(indices) => indices,
                    Err(e) => {
                        return Err(e);
                    },
                };
                let mut propagation_new_indices = Self::write_literals(
                    writer_data,
                    propagations,
                    Ghost(f),
                );
                let ghost children = children_new_indices@;
                let ghost written = propagation_new_indices@;
                children_new_indices.append(&mut propagation_new_indices);
                proof {
                    assert(children_new_indices@ =~= children + written);
                }
                let index = writer_data.write_and(&children_new_indices, Ghost(f));
                proof {
                    assert(f.emit(start, n, propagations@) == Ok::<(WriterModel, usize), Error>(
                        (writer_data@, index),
                    ));
                }
                Ok(index)
            },
            Node::Or(children_nodes) => {
                let children_new_indices = match Self::write_children_of(
                    writer_data,
                    dnnf,
                    node_index,
                    children_nodes,
                ) {
                    Ok(indices) => indices,
                    Err(e) => {
                        return Err(e);
                    },
                };
                let var = if children_nodes.len() == 0 {
                    0
                } else {
                    proof {
                        assert forall|i: int| 0 <= i < children_nodes@.len() implies (
                        #[trigger] children_nodes@[i]).0 < f.edges.len() by {
                            assert(f.edge_list(n)[i] < f.edges.len());
                        }
                    }
                    match decision_var(dnnf, children_nodes.as_slice()) {
                        Some(var) => {
                            proof {
                                assert(edge_numbers(children_nodes@) == f.edge_list(n));
                                assert(first_decision(f, f.edge_list(n), 0) is Some);
                                assert(first_decision(f, f.edge_list(n), 0)->0 == var as nat);
                            }
                            var
                        },
                        None => {
                            proof {
                                assert(!f.has_decision_var(n));
                            }
                            return Err(Error::NotADecisionNode(node_index.0));
                        },
                    }
                };
                let ghost children = (writer_data@, children_new_indices@);
                proof {
                    assert(f.emit_children(start, n, f.edge_list(n).len() as int) == Ok::<
                        (WriterModel, Seq<usize>),
                        Error,
                    >(children));
                }
                let or_node_index = writer_data.write_or(&children_new_indices, var, Ghost(f));
                let ghost decision = (writer_data@, or_node_index);
                proof {
                    assert(decision == with_or(children.0, children.1, var as nat));
                }
                let mut propagation_new_indices = Self::write_literals(
                    writer_data,
                    propagations,
                    Ghost(f),
                );
                propagation_new_indices.push(or_node_index);
                let index = writer_data.write_and(&propagation_new_indices, Ghost(f));
                proof {
                    assert(f.emit(start, n, propagations@) == Ok::<(WriterModel, usize), Error>(
                        (writer_data@, index),
                    ));
                }
                Ok(index)
            },
            Node::True => {
                if propagations.len() == 0 {
                    let index = writer_data.write_true(Ghost(f));
                    proof {
                        assert(f.emit(start, n, propagations@) == Ok::<
                            (WriterModel, usize),
                            Error,
                        >((writer_data@, index)));
                    }
                    Ok(index)
                } else if propagations.len() == 1 {
                    let index = writer_data.write_literal(propagations[0], Ghost(f));
                    proof {
                        assert(f.emit(start, n, propagations@) == Ok::<
                            (WriterModel, usize),
                            Error,
                        >((writer_data@, index)));
                    }
                    Ok(index)
                } else {
                    let children_indices = Self::write_literals(
                        writer_data,
                        propagations,
                        Ghost(f),
                    );
                    let index = writer_data.write_and(&children_indices, Ghost(f));
                    proof {
                        assert(f.emit(start, n, propagations@) == Ok::<
                            (WriterModel, usize),
                            Error,
                        >((writer_data@, index)));
                    }
                    Ok(index)
                }
            },
            Node::False => {
                let index = writer_data.write_false(Ghost(f));
                proof {
                    assert(f.emit(start, n, propagations@) == Ok::<(WriterModel, usize), Error>(
                        (writer_data@, index),
                    ));
                }
                Ok(index)
            },
        }
    }
}

} // verus!
