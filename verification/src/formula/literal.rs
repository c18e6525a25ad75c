//! Literals: a variable index together with a polarity.

use vstd::prelude::*;
use vstd::std_specs::convert::FromSpecImpl;

verus! {

/// A literal: a variable index (starting at 0) and a polarity.
///
/// A literal is stored as the single number `2 * var_index + (1 if negative)`.
/// In DIMACS notation the positive literal of variable `v` is `v + 1` and
/// the negative one is `-(v + 1)`.
#[derive(Copy, Clone, Debug, PartialEq, Eq, Structural)]
pub struct Literal(usize);

impl Literal {
    /// The number that encodes this literal.
    pub closed spec fn code(self) -> nat {
        self.0 as nat
    }

    /// The literal encoded by `code`.
    pub closed spec fn from_code(code: nat) -> Literal {
        Literal(code as usize)
    }

    /// The variable of this literal.
    pub open spec fn var(self) -> nat {
        self.code() / 2
    }

    /// Whether this literal is the positive one of its variable.
    pub open spec fn is_positive(self) -> bool {
        self.code() % 2 == 0
    }

    /// The literal of variable `var` with the given polarity.
    pub open spec fn of(var: nat, positive: bool) -> Literal {
        Literal::from_code(
            if positive {
                2 * var
            } else {
                2 * var + 1
            },
        )
    }

    /// The literal of the same variable with the opposite polarity.
    pub open spec fn flipped(self) -> Literal {
        Literal::of(self.var(), !self.is_positive())
    }

    /// The negative literal of the same variable.
    pub open spec fn negative(self) -> Literal {
        Literal::of(self.var(), false)
    }

    /// The DIMACS number of this literal (0 for the one code that no DIMACS
    /// literal has).
    pub open spec fn dimacs(self) -> int {
        if self.code() == usize::MAX - 1 {
            0
        } else if self.is_positive() {
            (self.var() + 1) as int
        } else {
            -(self.var() + 1)
        }
    }

    /// The code of the literal whose DIMACS number is `value`.
    pub open spec fn code_of_dimacs(value: int) -> nat {
        if value > 0 {
            (2 * (value - 1)) as nat
        } else if value < 0 {
            (2 * (-value - 1) + 1) as nat
        } else {
            (usize::MAX - 1) as nat
        }
    }

    /// A code fits in a machine word, and two literals with the same code are
    /// the same literal.
    pub broadcast proof fn lemma_code(self)
        ensures
            #[trigger] self.code() <= usize::MAX,
            Literal::from_code(self.code()) == self,
    {
    }

    /// Decoding then encoding a code that fits gives the code back.
    pub broadcast proof fn lemma_from_code(code: nat)
        requires
            code <= usize::MAX,
        ensures
            #[trigger] Literal::from_code(code).code() == code,
    {
    }

    /// Literals with equal codes are equal.
    pub proof fn lemma_code_injective(a: Literal, b: Literal)
        requires
            a.code() == b.code(),
        ensures
            a == b,
    {
    }

    /// `of` builds the literal with the asked variable and polarity.
    pub proof fn lemma_of(var: nat, positive: bool)
        requires
            2 * var + 1 <= usize::MAX,
        ensures
            Literal::of(var, positive).var() == var,
            Literal::of(var, positive).is_positive() == positive,
    {
    }

    /// The negative literal that `of` builds for a variable has this
    /// variable, where the variable has literals: its code fits.
    pub proof fn lemma_of_unchecked(var: nat)
        ensures
            2 * var + 1 <= usize::MAX ==> Literal::of(var, false).var() == var && !Literal::of(
                var,
                false,
            ).is_positive(),
    {
    }

    /// A literal is the one `of` builds from its own variable and polarity.
    pub proof fn lemma_of_self(self)
        ensures
            Literal::of(self.var(), self.is_positive()) == self,
            2 * self.var() + 1 <= usize::MAX,
            self.flipped().var() == self.var(),
            self.flipped().is_positive() == !self.is_positive(),
            self.flipped().flipped() == self,
            self.negative().var() == self.var(),
            !self.negative().is_positive(),
    {
        assert(usize::MAX % 2 == 1) by {
            assert(usize::MAX == 0xffff_ffff || usize::MAX == 0xffff_ffff_ffff_ffff);
        }
    }

    /// Returns the variable index.
    /// Variable indices begin at 0.
    #[must_use]
    pub fn var_index(&self) -> (v: usize)
        ensures
            v == self.var(),
    {
        self.0 / 2
    }

    /// Returns the polarity of the literal: `true` for the positive literal
    /// and `false` for the negative one.
    #[must_use]
    pub fn polarity(&self) -> (p: bool)
        ensures
            p == self.is_positive(),
    {
        self.0 % 2 == 0
    }

    /// Returns the literal with the same variable index but the opposite
    /// polarity.
    #[must_use]
    pub fn flip(&self) -> (l: Literal)
        ensures
            l == self.flipped(),
            l.var() == self.var(),
            l.is_positive() == !self.is_positive(),
    {
        proof {
            self.lemma_of_self();
        }
        if self.0 % 2 == 0 {
            Literal(self.0 + 1)
        } else {
            Literal(self.0 - 1)
        }
    }

    /// Sets the polarity of this literal to false.
    ///
    /// This has no effect if the literal is already negative.
    pub fn set_negative(&mut self)
        ensures
            *final(self) == old(self).negative(),
            final(self).var() == old(self).var(),
            !final(self).is_positive(),
    {
        proof {
            self.lemma_of_self();
        }
        if self.0 % 2 == 0 {
            self.0 = self.0 + 1;
        }
    }

    /// Builds the literal of variable `var_index` with the given polarity.
    pub fn new(var_index: usize, polarity: bool) -> (l: Literal)
        requires
            2 * var_index + 1 <= usize::MAX,
        ensures
            l == Literal::of(var_index as nat, polarity),
            l.var() == var_index,
            l.is_positive() == polarity,
    {
        if polarity {
            Literal(2 * var_index)
        } else {
            Literal(2 * var_index + 1)
        }
    }

    /// Returns the number that encodes this literal:
    /// `2 * var_index + (1 if negative)`.
    pub fn into_usize(self) -> (code: usize)
        ensures
            code == self.code(),
    {
        self.0
    }

    /// Returns the literal that `code` encodes.
    pub fn from_usize(code: usize) -> (l: Literal)
        ensures
            l == Literal::from_code(code as nat),
            l.code() == code,
    {
        Literal(code)
    }
}

impl From<isize> for Literal {
    /// Builds a literal from its DIMACS number.
    fn from(value: isize) -> (l: Literal) {
        if value > 0 {
            Literal(((value - 1) as usize) * 2)
        } else if value < 0 {
            Literal(((-(value + 1)) as usize) * 2 + 1)
        } else {
            Literal(usize::MAX - 1)
        }
    }
}

impl FromSpecImpl<isize> for Literal {
    open spec fn obeys_from_spec() -> bool {
        true
    }

    open spec fn from_spec(value: isize) -> Literal {
        Literal::from_code(Literal::code_of_dimacs(value as int))
    }
}

impl From<Literal> for isize {
    /// Returns the DIMACS number of a literal.
    fn from(l: Literal) -> (value: isize) {
        if l.0 == usize::MAX - 1 {
            0
        } else if l.0 % 2 == 0 {
            (l.0 / 2 + 1) as isize
        } else {
            -((l.0 / 2) as isize) - 1
        }
    }
}

impl FromSpecImpl<Literal> for isize {
    open spec fn obeys_from_spec() -> bool {
        true
    }

    open spec fn from_spec(l: Literal) -> isize {
        l.dimacs() as isize
    }
}

} // verus!
