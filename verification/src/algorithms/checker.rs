//! Checking that a graph is a Decision-DNNF: that its conjunction nodes are
//! decomposable and, as far as the literals of the edges show it, that its
//! disjunction nodes are deterministic.

use crate::error::digits;
use crate::error::text_then_number;
use crate::error::text_then_text;
use crate::formula::decision_dnnf::edge_numbers;
use crate::formula::decision_dnnf::DecisionDNNF;
use crate::formula::decision_dnnf::Formula;
use crate::formula::decision_dnnf::Node;
use crate::formula::decision_dnnf::NodeIndex;
use crate::formula::decision_dnnf::NodeModel;
use crate::formula::involved_vars::literal_vars;
use crate::formula::involved_vars::InvolvedVars;
use crate::formula::literal::Literal;
use crate::algorithms::orphan_nodes_and_edges::new_marks;
use vstd::prelude::*;

verus! {

/// Whether a literal of `left` is the opposite of a literal of `right`.
pub open spec fn contradictory(left: Seq<Literal>, right: Seq<Literal>) -> bool {
    exists|a: int, b: int|
        0 <= a < left.len() && 0 <= b < right.len() && #[trigger] right[b] == (#[trigger] left[a]).flipped()
}

impl Formula {
    /// Whether the branches of node `n` share no variable.
    pub open spec fn decomposable_at(self, n: int) -> bool {
        forall|i: int, j: int|
            0 <= i < j < self.edge_list(n).len() ==> (#[trigger] self.branch_vars(n, i)).disjoint(
                #[trigger] self.branch_vars(n, j),
            )
    }

    /// Whether every conjunction node is decomposable.
    pub open spec fn decomposable(self) -> bool {
        forall|n: int|
            0 <= n < self.nodes.len() && (#[trigger] self.nodes[n]) is And ==> self.decomposable_at(
                n,
            )
    }

    /// Whether nothing shows that the branches `i` and `j` of node `n`
    /// exclude each other: neither enters a false node, and no literal of one
    /// is the opposite of a literal of the other.
    pub open spec fn suspect(self, n: int, i: int, j: int) -> bool {
        &&& !(self.nodes[self.child(n, i)] is False)
        &&& !(self.nodes[self.child(n, j)] is False)
        &&& !contradictory(self.edge(n, i).propagated, self.edge(n, j).propagated)
    }

    /// Whether some disjunction node has two branches of which nothing shows
    /// that they exclude each other.
    pub open spec fn has_suspect(self) -> bool {
        exists|n: int, i: int, j: int|
            0 <= n < self.nodes.len() && self.nodes[n] is Or && 0 <= i < j < self.edge_list(n).len()
                && #[trigger] self.suspect(n, i, j)
    }

    /// Whether no two branches of node `n` are suspect, among the pairs
    /// whose first branch is before the `i`-th, or is the `i`-th with a
    /// second branch before the `j`-th.
    pub open spec fn no_suspect_upto(self, n: int, i: int, j: int) -> bool {
        forall|a: int, b: int|
            0 <= a < b < self.edge_list(n).len() && (a < i || (a == i && b < j)) ==> !(
            #[trigger] self.suspect(n, a, b))
    }

    /// A variable involved in the first branches of a node is a variable of
    /// one of them.
    pub proof fn lemma_involved_upto_witness(self, n: int, i: int, v: nat)
        requires
            self.wf(),
            0 <= n < self.nodes.len(),
            0 <= i <= self.edge_list(n).len(),
            self.involved_upto(n, i).contains(v),
        ensures
            exists|j: int| 0 <= j < i && (#[trigger] self.branch_vars(n, j)).contains(v),
        decreases i,
    {
        if i > 0 {
            assert(self.involved_upto(n, i) == self.involved_upto(n, i - 1).union(
                self.branch_vars(n, i - 1),
            ));
            if self.branch_vars(n, i - 1).contains(v) {
            } else {
                self.lemma_involved_upto_witness(n, i - 1, v);
            }
        } else {
            assert(self.involved_upto(n, 0) == Set::<nat>::empty());
        }
    }
}

/// What a check has found so far: the conjunction node of the error, if
/// any; the warnings, each as the two branches and the disjunction node that
/// it speaks of; and, for each node, whether it was gone through.
pub struct CheckModel {
    pub error: Option<nat>,
    pub warnings: Seq<(nat, nat, nat)>,
    pub done: Seq<bool>,
}

/// The message of the error on the conjunction node `n`.
pub open spec fn error_message(n: nat) -> Seq<char> {
    "AND children share variables (AND node index is "@ + digits(n) + ")"@
}

/// The message of the warning on two branches of a disjunction node.
pub open spec fn warning_message(w: (nat, nat, nat)) -> Seq<char> {
    "OR children at indices "@ + digits(w.0) + " and "@ + digits(w.1)
        + " may not be contradictory (OR node index is "@ + digits(w.2) + ")"@
}

/// The messages of a list of warnings.
pub open spec fn warning_messages(warnings: Seq<(nat, nat, nat)>) -> Seq<Seq<char>> {
    Seq::new(warnings.len(), |k: int| warning_message(warnings[k]))
}

/// The message of the error of a check, if any.
pub open spec fn error_text_of(found: CheckModel) -> Option<Seq<char>> {
    match found.error {
        Some(n) => Some(error_message(n)),
        None => None,
    }
}

impl Formula {
    /// The warnings on the branch `i` of the disjunction node `n` and the
    /// branches after it and before the `j`-th, in their order.
    pub open spec fn row(self, n: int, i: int, j: int) -> Seq<(nat, nat, nat)>
        decreases j - i,
    {
        if j <= i + 1 {
            Seq::empty()
        } else if self.suspect(n, i, j - 1) {
            self.row(n, i, j - 1).push((i as nat, (j - 1) as nat, n as nat))
        } else {
            self.row(n, i, j - 1)
        }
    }

    /// The warnings on the first `i` branches of the disjunction node `n`,
    /// each with the branches after it, in their order.
    pub open spec fn rows(self, n: int, i: int) -> Seq<(nat, nat, nat)>
        decreases i,
    {
        if i <= 0 {
            Seq::empty()
        } else {
            self.rows(n, i - 1) + self.row(n, i - 1, self.edge_list(n).len() as int)
        }
    }

    /// What a check has found after it went through the node `n`, from
    /// what it had found before. Nothing changes after an error or for a
    /// node that was gone through. Else the targets of the edges are gone
    /// through first, in the order of the edges. Then a conjunction node
    /// whose branches share a variable is the error of the check; a
    /// disjunction node adds its warnings; and the node is gone through.
    pub open spec fn walked(self, found: CheckModel, n: int) -> CheckModel
        decreases self.rank()[n], 1nat, 0nat,
        when self.wf() && 0 <= n < self.nodes.len()
    {
        if found.error is Some || found.done[n] {
            found
        } else {
            let below = self.walked_children(found, n, self.edge_list(n).len() as int);
            if below.error is Some || below.done[n] {
                below
            } else {
                match self.nodes[n] {
                    NodeModel::And(_) => if self.decomposable_at(n) {
                        CheckModel { done: below.done.update(n, true), ..below }
                    } else {
                        CheckModel { error: Some(n as nat), ..below }
                    },
                    NodeModel::Or(_) => CheckModel {
                        warnings: below.warnings + self.rows(n, self.edge_list(n).len() as int),
                        done: below.done.update(n, true),
                        ..below
                    },
                    _ => CheckModel { done: below.done.update(n, true), ..below },
                }
            }
        }
    }

    /// What a check has found after it went through the targets of the
    /// first `i` edges of the node `n`.
    pub open spec fn walked_children(self, found: CheckModel, n: int, i: int) -> CheckModel
        decreases self.rank()[n], 0nat, i,
        when self.wf() && 0 <= n < self.nodes.len() && 0 <= i <= self.edge_list(n).len()
    {
        if i == 0 {
            found
        } else {
            proof {
                self.lemma_child(n, i - 1);
            }
            self.walked(self.walked_children(found, n, i - 1), self.child(n, i - 1))
        }
    }

    /// What the check of the formula finds: the nodes are gone through
    /// from the root.
    pub open spec fn checked(self) -> CheckModel {
        self.walked(
            CheckModel {
                error: None,
                warnings: Seq::empty(),
                done: Seq::new(self.nodes.len(), |n: int| false),
            },
            0,
        )
    }
}

/// The result of checking a formula.
///
/// A conjunction node whose branches share a variable is an error, and the
/// first one that is met ends the check. A disjunction node of which nothing
/// shows that two of its branches exclude each other gives a warning: the
/// check of determinism is partial, and such a node may be deterministic all
/// the same.
pub struct DecisionDNNFChecker {
    error: Option<String>,
    warnings: Vec<String>,
}

impl Default for DecisionDNNFChecker {
    /// A result without error nor warning.
    fn default() -> (r: Self)
        ensures
            !r.failed(),
            r.n_warnings() == 0,
            r.error_text() is None,
            r.warning_texts() == Seq::<Seq<char>>::empty(),
    {
        let r = DecisionDNNFChecker { error: None, warnings: Vec::new() };
        proof {
            assert(r.warning_texts() =~= Seq::<Seq<char>>::empty());
        }
        r
    }
}

/// What holds of the nodes that a check has gone through without error.
pub open spec fn checked_ok(
    f: Formula,
    involved_vars: Seq<Option<InvolvedVars>>,
    is_false_node: Seq<bool>,
    n_warnings: nat,
) -> bool {
    &&& involved_vars.len() == f.nodes.len()
    &&& is_false_node.len() == f.nodes.len()
    &&& n_warnings > 0 ==> f.has_suspect()
    &&& forall|n: int|
        0 <= n < f.nodes.len() && (#[trigger] involved_vars[n]) is None ==> !is_false_node[n]
    &&& forall|n: int|
        0 <= n < f.nodes.len() && (#[trigger] involved_vars[n]) is Some ==> {
            &&& involved_vars[n]->0.wf()
            &&& involved_vars[n]->0.capacity() == f.n_vars
            &&& involved_vars[n]->0@ == f.involved(n)
            &&& is_false_node[n] == (f.nodes[n] is False)
            &&& f.nodes[n] is And ==> f.decomposable_at(n)
            &&& f.nodes[n] is Or && n_warnings == 0 ==> f.no_suspect_upto(
                n,
                f.edge_list(n).len() as int,
                0,
            )
        }
}

impl DecisionDNNFChecker {
    /// Whether the check met an error.
    pub closed spec fn failed(&self) -> bool {
        self.error is Some
    }

    /// The number of warnings of the check.
    pub closed spec fn n_warnings(&self) -> nat {
        self.warnings@.len()
    }

    /// The message of the error that the check met, if any.
    pub closed spec fn error_text(&self) -> Option<Seq<char>> {
        match self.error {
            Some(message) => Some(message@),
            None => None,
        }
    }

    /// The messages of the warnings of the check.
    pub closed spec fn warning_texts(&self) -> Seq<Seq<char>> {
        Seq::new(self.warnings@.len(), |k: int| self.warnings@[k]@)
    }

    /// Whether the result and the marks of a check hold what `found`
    /// says.
    pub closed spec fn tied(&self, involved_vars: Seq<Option<InvolvedVars>>, found: CheckModel) -> bool {
        &&& self.error_text() == error_text_of(found)
        &&& self.warning_texts() == warning_messages(found.warnings)
        &&& found.done.len() == involved_vars.len()
        &&& forall|m: int|
            0 <= m < involved_vars.len() ==> #[trigger] found.done[m] == (involved_vars[m] is Some)
    }

    /// What holds during a check: after an error the formula is known not
    /// to be decomposable, and before it the nodes gone through are in
    /// order.
    pub open spec fn progress(
        &self,
        f: Formula,
        involved_vars: Seq<Option<InvolvedVars>>,
        is_false_node: Seq<bool>,
    ) -> bool {
        if self.failed() {
            !f.decomposable() && involved_vars.len() == f.nodes.len() && is_false_node.len()
                == f.nodes.len()
        } else {
            checked_ok(f, involved_vars, is_false_node, self.n_warnings())
        }
    }

    /// Performs the check on the provided formula: the nodes that can be
    /// reached from the root are gone through, each after the targets of
    /// its edges.
    ///
    /// Call [`error`](DecisionDNNFChecker::error) and
    /// [`warnings`](DecisionDNNFChecker::warnings) on the returned object to
    /// get the results.
    #[must_use]
    pub fn check(ddnnf: &DecisionDNNF) -> (r: DecisionDNNFChecker)
        requires
            ddnnf@.wf(),
        ensures
            r.error_text() == error_text_of(ddnnf@.checked()),
            r.warning_texts() == warning_messages(ddnnf@.checked().warnings),
            r.failed() <==> ddnnf@.has_reachable_fault(),
            !r.failed() ==> (r.n_warnings() > 0 <==> ddnnf@.has_reachable_suspect()),
    {
        let ghost f = ddnnf@;
        let mut result = DecisionDNNFChecker::default();
        let ghost start = CheckModel {
            error: None,
            warnings: Seq::empty(),
            done: Seq::new(f.nodes.len(), |n: int| false),
        };
        let mut found: Ghost<CheckModel> = Ghost(start);
        let n_nodes = ddnnf.n_nodes();
        let mut involved_vars: Vec<Option<InvolvedVars>> = Vec::new();
        let mut i: usize = 0;
        while i < n_nodes
            invariant
                i <= n_nodes,
                involved_vars@.len() == i,
                forall|n: int| 0 <= n < i ==> (#[trigger] involved_vars@[n]) is None,
            decreases n_nodes - i,
        {
            involved_vars.push(None);
            i = i + 1;
        }
        let mut is_false_node = new_marks(n_nodes);
        proof {
            assert(warning_messages(start.warnings) =~= Seq::<Seq<char>>::empty());
            assert(result.tied(involved_vars@, found@));
        }
        Self::check_from(
            ddnnf,
            &mut result,
            &mut involved_vars,
            &mut is_false_node,
            NodeIndex(0),
            &mut found,
        );
        proof {
            f.law_check_finds_what_can_be_reached();
            assert(found@ == f.checked());
            assert(result.n_warnings() == result.warning_texts().len());
            assert(result.failed() <==> result.error_text() is Some);
        }
        result
    }

    /// Returns the message of the error that the check met, if any.
    #[must_use]
    pub fn error(&self) -> (r: Option<&str>)
        ensures
            r is Some <==> self.failed(),
            r is Some <==> self.error_text() is Some,
            r matches Some(message) ==> message@ == self.error_text()->0,
    {
        match &self.error {
            Some(message) => Some(message.as_str()),
            None => None,
        }
    }

    /// Returns the messages of the warnings of the check.
    #[must_use]
    pub fn warnings(&self) -> (r: &[String])
        ensures
            r@.len() == self.n_warnings(),
            r@.len() == self.warning_texts().len(),
            forall|k: int| 0 <= k < r@.len() ==> (#[trigger] r@[k])@ == self.warning_texts()[k],
    {
        self.warnings.as_slice()
    }

    /// Checks the node `from`, after the nodes that can be reached from
    /// it, unless an error was met before.
    #[verifier::loop_isolation(false)]
    fn check_from(
        ddnnf: &DecisionDNNF,
        result: &mut DecisionDNNFChecker,
        involved_vars: &mut Vec<Option<InvolvedVars>>,
        is_false_node: &mut Vec<bool>,
        from: NodeIndex,
        found: &mut Ghost<CheckModel>,
    )
        requires
            ddnnf@.wf(),
            from.0 < ddnnf@.nodes.len(),
            old(result).progress(ddnnf@, old(involved_vars)@, old(is_false_node)@),
            old(result).tied(old(involved_vars)@, old(found)@),
        ensures
            final(result).progress(ddnnf@, final(involved_vars)@, final(is_false_node)@),
            final(result).tied(final(involved_vars)@, final(found)@),
            final(found)@ == ddnnf@.walked(old(found)@, from.0 as int),
            !final(result).failed() ==> !old(result).failed(),
            !final(result).failed() ==> final(involved_vars)@[from.0 as int] is Some,
            !final(result).failed() ==> forall|m: int|
                #![trigger old(involved_vars)@[m]]
                #![trigger final(involved_vars)@[m]]
                0 <= m < ddnnf@.nodes.len() && old(involved_vars)@[m] is Some ==> final(
                    involved_vars
                )@[m] is Some,
        decreases ddnnf@.rank()[from.0 as int], 1nat,
    {
        if result.error.is_some() {
            return ;
        }
        if involved_vars[from.0].is_some() {
            return ;
        }
        let ghost f = ddnnf@;
        let ghost n = from.0 as int;
        let ghost entry = found@;
        Self::check_from_children_of(ddnnf, result, involved_vars, is_false_node, from, found);
        let ghost below = found@;
        proof {
            assert(below == f.walked_children(entry, n, f.edge_list(n).len() as int));
        }
        if result.error.is_some() {
            return ;
        }
        if involved_vars[from.0].is_some() {
            return ;
        }
        let ghost mut listed = below.warnings;
        let ghost texts_below = result.warning_texts();
        proof {
            assert(texts_below == warning_messages(below.warnings));
        }
        let n_vars = ddnnf.n_vars();
        let involved = match ddnnf.node(from) {
            Node::And(children) => {
                let mut union = InvolvedVars::new(n_vars);
                let mut i: usize = 0;
                proof {
                    assert(f.involved_upto(n, 0) == Set::<nat>::empty());
                }
                while i < children.len()
                    invariant
                        i <= children.len(),
                        edge_numbers(children@) == f.edge_list(n),
                        !result.failed(),
                        checked_ok(f, involved_vars@, is_false_node@, result.n_warnings()),
                        union.wf(),
                        union.capacity() == f.n_vars,
                        union@ == f.involved_upto(n, i as int),
                        result.warning_texts() == texts_below,
                        forall|a: int, b: int|
                            0 <= a < b < i ==> (#[trigger] f.branch_vars(n, a)).disjoint(
                                #[trigger] f.branch_vars(n, b),
                            ),
                    decreases children.len() - i,
                {
                    proof {
                        f.lemma_child(n, i as int);
                        crate::algorithms::model_enumerator::lemma_propagated_in_range(
                            f,
                            n,
                            i as int,
                        );
                        assert(f.branch_vars(n, i as int) == literal_vars(
                            f.edge(n, i as int).propagated,
                        ).union(f.involved(f.child(n, i as int))));
                        assert(f.involved_upto(n, i + 1) == f.involved_upto(n, i as int).union(
                            f.branch_vars(n, i as int),
                        ));
                        f.lemma_involved_upto_bounds(n, i as int);
                    }
                    let edge = ddnnf.edge(children[i]);
                    let target = edge.target();
                    assert(involved_vars@[target.0 as int] is Some);
                    let mut branch = match &involved_vars[target.0] {
                        Some(s) => s.clone(),
                        None => InvolvedVars::new(n_vars),
                    };
                    branch.set_literals(edge.propagated());
                    assert(branch@ =~= f.branch_vars(n, i as int));
                    let mut intersection = branch.clone();
                    intersection.and_assign(&union);
                    if intersection.any() {
                        proof {
                            let v = choose|v: nat| intersection@.contains(v);
                            f.lemma_involved_upto_witness(n, i as int, v);
                            let a = choose|a: int|
                                0 <= a < i && (#[trigger] f.branch_vars(n, a)).contains(v);
                            assert(!f.branch_vars(n, a).disjoint(f.branch_vars(n, i as int)));
                            assert(!f.decomposable_at(n));
                        }
                        let message = text_then_number(
                            "AND children share variables (AND node index is ",
                            from.0,
                        );
                        result.error = Some(text_then_text(message.as_str(), ")"));
                        proof {
                            found@ = CheckModel { error: Some(n as nat), ..below };
                            assert(result.warning_texts() =~= texts_below);
                            assert(result.error_text()->0 =~= error_message(n as nat));
                            assert(result.tied(involved_vars@, found@));
                        }
                        return ;
                    }
                    proof {
                        assert forall|a: int, b: int| 0 <= a < b < i + 1 implies (
                        #[trigger] f.branch_vars(n, a)).disjoint(
                            #[trigger] f.branch_vars(n, b),
                        ) by {
                            if b == i {
                                assert forall|v: nat|
                                    f.branch_vars(n, a).contains(v) && f.branch_vars(
                                        n,
                                        b,
                                    ).contains(v) implies false by {
                                    assert(f.involved_upto(n, i as int).contains(v));
                                    assert(intersection@.contains(v));
                                }
                            }
                        }
                    }
                    union.or_assign(&branch);
                    i = i + 1;
                }
                proof {
                    assert(f.involved(n) == f.involved_upto(n, f.edge_list(n).len() as int));
                    assert(f.decomposable_at(n));
                }
                union
            },
            Node::Or(children) => {
                let mut i: usize = 0;
                while i < children.len()
                    invariant
                        i <= children.len(),
                        edge_numbers(children@) == f.edge_list(n),
                        !result.failed(),
                        checked_ok(f, involved_vars@, is_false_node@, result.n_warnings()),
                        f.nodes[n] is Or,
                        result.n_warnings() > 0 ==> f.has_suspect(),
                        result.n_warnings() == 0 ==> f.no_suspect_upto(n, i as int, 0),
                        listed == below.warnings + f.rows(n, i as int),
                        result.warning_texts() == warning_messages(listed),
                    decreases children.len() - i,
                {
                    proof {
                        f.lemma_child(n, i as int);
                    }
                    let edge_i = ddnnf.edge(children[i]);
                    let target_i = edge_i.target().0;
                    let mut j: usize = i + 1;
                    let ghost rows_before = below.warnings + f.rows(n, i as int);
                    proof {
                        assert(f.no_suspect_upto(n, i as int, 0) ==> f.no_suspect_upto(
                            n,
                            i as int,
                            j as int,
                        ));
                        assert(rows_before + f.row(n, i as int, j as int) =~= rows_before);
                    }
                    while j < children.len()
                        invariant
                            i < j <= children.len(),
                            !result.failed(),
                            checked_ok(f, involved_vars@, is_false_node@, result.n_warnings()),
                            result.n_warnings() > 0 ==> f.has_suspect(),
                            result.n_warnings() == 0 ==> f.no_suspect_upto(n, i as int, j as int),
                            listed == rows_before + f.row(n, i as int, j as int),
                            result.warning_texts() == warning_messages(listed),
                        decreases children.len() - j,
                    {
                        proof {
                            f.lemma_child(n, j as int);
                        }
                        let edge_j = ddnnf.edge(children[j]);
                        let target_j = edge_j.target().0;
                        assert(involved_vars@[target_i as int] is Some);
                        assert(involved_vars@[target_j as int] is Some);
                        if !is_false_node[target_i] && !is_false_node[target_j]
                            && !Self::are_contradictory(edge_i.propagated(), edge_j.propagated()) {
                            proof {
                                assert(f.suspect(n, i as int, j as int));
                            }
                            let start = text_then_number("OR children at indices ", i);
                            let and = text_then_text(start.as_str(), " and ");
                            let pair = text_then_number(and.as_str(), j);
                            let middle = text_then_text(
                                pair.as_str(),
                                " may not be contradictory (OR node index is ",
                            );
                            let node = text_then_number(middle.as_str(), from.0);
                            let text = text_then_text(node.as_str(), ")");
                            let ghost texts = result.warning_texts();
                            result.warnings.push(text);
                            proof {
                                let w = (i as nat, j as nat, n as nat);
                                assert(text@ =~= warning_message(w));
                                assert(result.warning_texts() =~= texts.push(text@));
                                assert(warning_messages(listed.push(w)) =~= warning_messages(
                                    listed,
                                ).push(warning_message(w)));
                                listed = listed.push(w);
                                assert(listed =~= rows_before + f.row(n, i as int, j + 1));
                            }
                        } else {
                            proof {
                                assert(!f.suspect(n, i as int, j as int));
                            }
                        }
                        j = j + 1;
                    }
                    proof {
                        if result.n_warnings() == 0 {
                            assert(f.no_suspect_upto(n, i + 1, 0));
                        }
                        assert(listed =~= below.warnings + f.rows(n, i + 1));
                    }
                    i = i + 1;
                }
                Self::union_of_children(ddnnf, involved_vars, from, Ghost(is_false_node@))
            },
            Node::True => {
                proof {
                    assert(f.involved(n) == f.involved_upto(n, f.edge_list(n).len() as int));
                    assert(f.involved_upto(n, 0) == Set::<nat>::empty());
                }
                InvolvedVars::new(n_vars)
            },
            Node::False => {
                proof {
                    assert(f.involved(n) == f.involved_upto(n, f.edge_list(n).len() as int));
                    assert(f.involved_upto(n, 0) == Set::<nat>::empty());
                }
                is_false_node.set(from.0, true);
                InvolvedVars::new(n_vars)
            },
        };
        involved_vars.set(from.0, Some(involved));
        proof {
            found@ = CheckModel { warnings: listed, done: below.done.update(n, true), ..below };
            if f.nodes[n] is Or {
            } else {
                assert(listed == below.warnings);
            }
            assert(found@ == f.walked(entry, n));
            assert(result.warning_texts() == warning_messages(listed));
            assert(result.tied(involved_vars@, found@));
        }
    }

    /// Returns the variables involved at the node `from`, whose children
    /// were gone through.
    #[verifier::loop_isolation(false)]
    fn union_of_children(
        ddnnf: &DecisionDNNF,
        involved_vars: &Vec<Option<InvolvedVars>>,
        from: NodeIndex,
        Ghost(is_false_node): Ghost<Seq<bool>>,
    ) -> (union: InvolvedVars)
        requires
            ddnnf@.wf(),
            from.0 < ddnnf@.nodes.len(),
            involved_vars@.len() == ddnnf@.nodes.len(),
            forall|m: int|
                0 <= m < ddnnf@.nodes.len() && (#[trigger] involved_vars@[m]) is Some ==> {
                    &&& involved_vars@[m]->0.wf()
                    &&& involved_vars@[m]->0.capacity() == ddnnf@.n_vars
                    &&& involved_vars@[m]->0@ == ddnnf@.involved(m)
                },
            forall|i: int|
                0 <= i < ddnnf@.edge_list(from.0 as int).len() ==> (#[trigger] involved_vars@[ddnnf@.child(
                    from.0 as int,
                    i,
                )]) is Some,
        ensures
            union.wf(),
            union.capacity() == ddnnf@.n_vars,
            union@ == ddnnf@.involved(from.0 as int),
    {
        let ghost f = ddnnf@;
        let ghost n = from.0 as int;
        let mut union = InvolvedVars::new(ddnnf.n_vars());
        let edges = ddnnf.node(from).edge_indices();
        let mut i: usize = 0;
        proof {
            assert(f.involved_upto(n, 0) == Set::<nat>::empty());
        }
        while i < edges.len()
            invariant
                i <= edges.len(),
                union.wf(),
                union.capacity() == f.n_vars,
                union@ == f.involved_upto(n, i as int),
            decreases edges.len() - i,
        {
            proof {
                f.lemma_child(n, i as int);
                crate::algorithms::model_enumerator::lemma_propagated_in_range(f, n, i as int);
                assert(f.branch_vars(n, i as int) == literal_vars(
                    f.edge(n, i as int).propagated,
                ).union(f.involved(f.child(n, i as int))));
                assert(f.involved_upto(n, i + 1) == f.involved_upto(n, i as int).union(
                    f.branch_vars(n, i as int),
                ));
            }
            let edge = ddnnf.edge(edges[i]);
            assert(involved_vars@[f.child(n, i as int)] is Some);
            match &involved_vars[edge.target().0] {
                Some(s) => {
                    union.or_assign(s);
                },
                None => {},
            }
            union.set_literals(edge.propagated());
            assert(union@ =~= f.involved_upto(n, i + 1));
            i = i + 1;
        }
        proof {
            assert(f.involved(n) == f.involved_upto(n, f.edge_list(n).len() as int));
        }
        union
    }

    /// Goes through the children of the node `from` that were not gone
    /// through before.
    #[verifier::loop_isolation(false)]
    fn check_from_children_of(
        ddnnf: &DecisionDNNF,
        result: &mut DecisionDNNFChecker,
        involved_vars: &mut Vec<Option<InvolvedVars>>,
        is_false_node: &mut Vec<bool>,
        from: NodeIndex,
        found: &mut Ghost<CheckModel>,
    )
        requires
            ddnnf@.wf(),
            from.0 < ddnnf@.nodes.len(),
            old(result).progress(ddnnf@, old(involved_vars)@, old(is_false_node)@),
            old(result).tied(old(involved_vars)@, old(found)@),
        ensures
            final(result).progress(ddnnf@, final(involved_vars)@, final(is_false_node)@),
            final(result).tied(final(involved_vars)@, final(found)@),
            final(found)@ == ddnnf@.walked_children(
                old(found)@,
                from.0 as int,
                ddnnf@.edge_list(from.0 as int).len() as int,
            ),
            !final(result).failed() ==> forall|i: int|
                0 <= i < ddnnf@.edge_list(from.0 as int).len() ==> (#[trigger] final(
                    involved_vars
                )@[ddnnf@.child(from.0 as int, i)]) is Some,
            !final(result).failed() ==> forall|m: int|
                #![trigger old(involved_vars)@[m]]
                #![trigger final(involved_vars)@[m]]
                0 <= m < ddnnf@.nodes.len() && old(involved_vars)@[m] is Some ==> final(
                    involved_vars
                )@[m] is Some,
            !final(result).failed() ==> !old(result).failed(),
        decreases ddnnf@.rank()[from.0 as int], 0nat,
    {
        let ghost f = ddnnf@;
        let ghost n = from.0 as int;
        let children = ddnnf.node(from).edge_indices();
        let mut i: usize = 0;
        while i < children.len()
            invariant
                i <= children.len(),
                result.progress(f, involved_vars@, is_false_node@),
                result.tied(involved_vars@, found@),
                found@ == f.walked_children(old(found)@, n, i as int),
                !result.failed() ==> !old(result).failed(),
                !result.failed() ==> forall|j: int|
                    0 <= j < i ==> (#[trigger] involved_vars@[f.child(n, j)]) is Some,
                !result.failed() ==> forall|m: int|
                    #![trigger old(involved_vars)@[m]]
                    #![trigger involved_vars@[m]]
                    0 <= m < f.nodes.len() && old(involved_vars)@[m] is Some ==> involved_vars@[m]
                        is Some,
            decreases children.len() - i,
        {
            proof {
                f.lemma_child(n, i as int);
            }
            let edge = ddnnf.edge(children[i]);
            let target = edge.target();
            if involved_vars[target.0].is_none() {
                Self::check_from(ddnnf, result, involved_vars, is_false_node, target, found);
            } else {
                proof {
                    assert(found@.done[target.0 as int]);
                }
            }
            i = i + 1;
        }
    }

    /// Tells whether a literal of `left` is the opposite of a literal of
    /// `right`.
    #[verifier::loop_isolation(false)]
    pub fn are_contradictory(left: &[Literal], right: &[Literal]) -> (r: bool)
        ensures
            r == contradictory(left@, right@),
    {
        let mut a: usize = 0;
        while a < left.len()
            invariant
                a <= left.len(),
                forall|x: int, y: int|
                    0 <= x < a && 0 <= y < right@.len() ==> #[trigger] right@[y] != (
                    #[trigger] left@[x]).flipped(),
            decreases left.len() - a,
        {
            let flipped = left[a].flip();
            let mut b: usize = 0;
            while b < right.len()
                invariant
                    b <= right.len(),
                    forall|y: int| 0 <= y < b ==> #[trigger] right@[y] != flipped,
                decreases right.len() - b,
            {
                if right[b] == flipped {
                    return true;
                }
                b = b + 1;
            }
            a = a + 1;
        }
        false
    }
}

} // verus!
