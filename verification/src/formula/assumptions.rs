//! Assumptions: literals that a query takes as fixed.

use crate::formula::literal::Literal;
use vstd::prelude::*;

verus! {

/// Whether the literals of `literals` speak of variables below `n_vars`, each
/// variable at most once.
pub open spec fn valid_assumptions(n_vars: nat, literals: Seq<Literal>) -> bool {
    &&& forall|i: int| 0 <= i < literals.len() ==> (#[trigger] literals[i]).var() < n_vars
    &&& forall|i: int, j: int|
        0 <= i < j < literals.len() ==> (#[trigger] literals[i]).var() != (
        #[trigger] literals[j]).var()
}

/// The polarity that `literals` gives to variable `var`, if any (that of the
/// last literal of the variable).
pub open spec fn assumed_polarity(literals: Seq<Literal>, var: nat) -> Option<bool>
    decreases literals.len(),
{
    if literals.len() == 0 {
        None
    } else if literals.last().var() == var {
        Some(literals.last().is_positive())
    } else {
        assumed_polarity(literals.drop_last(), var)
    }
}

/// Whether literal `l` contradicts the polarities of `mapping`: its variable
/// is given the other polarity.
pub open spec fn contradicts(mapping: Seq<Option<bool>>, l: Literal) -> bool {
    l.var() < mapping.len() && mapping[l.var() as int] == Some(!l.is_positive())
}

/// Whether some literal of `literals` contradicts `mapping`.
pub open spec fn any_contradicts(mapping: Seq<Option<bool>>, literals: Seq<Literal>) -> bool {
    exists|i: int| 0 <= i < literals.len() && contradicts(mapping, #[trigger] literals[i])
}

/// A set of assumed literals, kept both as the list that was given and as a
/// mapping from each variable to its assumed polarity, if any.
#[derive(Debug, Clone)]
pub struct Assumptions {
    literals: Vec<Literal>,
    mapping: Vec<Option<bool>>,
}

impl View for Assumptions {
    type V = Seq<Option<bool>>;

    /// The polarity assumed for each variable, if any.
    closed spec fn view(&self) -> Seq<Option<bool>> {
        self.mapping@
    }
}

impl Assumptions {
    /// The assumed literals, in the order in which they were given.
    pub closed spec fn literals(&self) -> Seq<Literal> {
        self.literals@
    }

    /// Creates the assumptions that the literals of `assumptions` make on a
    /// formula of `n_vars` variables.
    ///
    /// Each literal must speak of a variable of the formula, and no two of
    /// the same variable.
    #[must_use]
    pub fn new(n_vars: usize, assumptions: Vec<Literal>) -> (r: Self)
        requires
            valid_assumptions(n_vars as nat, assumptions@),
        ensures
            r.literals() == assumptions@,
            r@.len() == n_vars,
            forall|v: int| 0 <= v < n_vars ==> r@[v] == assumed_polarity(assumptions@, v as nat),
    {
        let mut mapping: Vec<Option<bool>> = Vec::new();
        let mut v: usize = 0;
        while v < n_vars
            invariant
                v <= n_vars,
                mapping@.len() == v,
                forall|w: int| 0 <= w < v ==> mapping@[w] == None::<bool>,
            decreases n_vars - v,
        {
            mapping.push(None);
            v = v + 1;
        }
        let mut i: usize = 0;
        while i < assumptions.len()
            invariant
                i <= assumptions.len(),
                mapping@.len() == n_vars,
                valid_assumptions(n_vars as nat, assumptions@),
                forall|w: int|
                    0 <= w < n_vars ==> mapping@[w] == assumed_polarity(
                        assumptions@.take(i as int),
                        w as nat,
                    ),
            decreases assumptions.len() - i,
        {
            let a = assumptions[i];
            let ghost before = mapping@;
            mapping.set(a.var_index(), Some(a.polarity()));
            proof {
                assert(assumptions@.take(i + 1).drop_last() =~= assumptions@.take(i as int));
                assert(assumptions@.take(i + 1).last() == a);
            }
            i = i + 1;
        }
        proof {
            assert(assumptions@.take(i as int) =~= assumptions@);
        }
        Self { literals: assumptions, mapping }
    }

    /// Returns a slice containing the literals.
    #[must_use]
    pub fn as_slice(&self) -> (s: &[Literal])
        ensures
            s@ == self.literals(),
    {
        self.literals.as_slice()
    }

    /// Returns the polarity assumed for the variable `index`, if any.
    pub fn get(&self, index: usize) -> (p: Option<bool>)
        requires
            index < self@.len(),
        ensures
            p == self@[index as int],
    {
        self.mapping[index]
    }

    /// Returns the number of variables of the formula that the assumptions
    /// were made for.
    pub fn n_vars(&self) -> (n: usize)
        ensures
            n == self@.len(),
    {
        self.mapping.len()
    }

    /// Tells whether the literal `l` contradicts an assumption.
    pub fn is_contradicted(&self, l: Literal) -> (b: bool)
        requires
            l.var() < self@.len(),
        ensures
            b == contradicts(self@, l),
    {
        match self.mapping[l.var_index()] {
            Some(p) => p != l.polarity(),
            None => false,
        }
    }

    /// Tells whether some literal of `literals` contradicts an assumption.
    pub fn contradicts_any(&self, literals: &[Literal]) -> (b: bool)
        requires
            forall|i: int| 0 <= i < literals@.len() ==> (#[trigger] literals@[i]).var() < self@.len(),
        ensures
            b == any_contradicts(self@, literals@),
    {
        let mut i: usize = 0;
        while i < literals.len()
            invariant
                i <= literals.len(),
                forall|j: int|
                    0 <= j < literals@.len() ==> (#[trigger] literals@[j]).var() < self@.len(),
                forall|j: int| 0 <= j < i ==> !contradicts(self@, #[trigger] literals@[j]),
            decreases literals.len() - i,
        {
            if self.is_contradicted(literals[i]) {
                return true;
            }
            i = i + 1;
        }
        false
    }
}

} // verus!
