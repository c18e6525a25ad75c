//! The lines that show models: `v`, then each variable with its sign, then
//! `0`.

use crate::formula::literal::Literal;
use crate::io::c2d_format::decimal;
use crate::io::c2d_format::push_decimal;
use crate::numbers::integer::integer_add_assign;
use crate::numbers::integer::integer_from_usize;
use crate::numbers::integer::integer_shl_assign;
use crate::numbers::integer::integer_value;
use rug::Integer;
use vstd::arithmetic::power2::pow2;
use vstd::prelude::*;

verus! {

/// The number of variables of a model that have no literal.
pub open spec fn count_free(model: Seq<Option<Literal>>) -> nat
    decreases model.len(),
{
    if model.len() == 0 {
        0
    } else {
        count_free(model.drop_last()) + if model.last() is None {
            1nat
        } else {
            0nat
        }
    }
}

/// The byte that shows the sign of a variable in a line: a blank for a
/// positive literal, `-` for a negative one, `*` for a variable without
/// literal.
pub open spec fn sign_byte(l: Option<Literal>) -> u8 {
    match l {
        Some(l) => if l.is_positive() {
            0x20
        } else {
            0x2d
        },
        None => 0x2a,
    }
}

/// The start of a line for `n` variables: `v`, then each variable after a
/// blank and the place of its sign.
pub open spec fn vars_text(n: nat) -> Seq<u8>
    decreases n,
{
    if n == 0 {
        seq![0x76u8]
    } else {
        vars_text((n - 1) as nat) + seq![0x20u8, 0x20u8] + decimal(n)
    }
}

/// The line for `n` variables, all shown positive: the variables, then
/// `0`.
pub open spec fn blank_line(n: nat) -> Seq<u8> {
    vars_text(n) + seq![0x20u8, 0x30u8, 0x20u8, 0x0au8]
}

/// The place of the sign of the variable `i` in a line.
pub open spec fn sign_place(i: nat) -> nat {
    vars_text(i).len() + 1
}

/// The line after the signs of the first `i` variables of a model were
/// written at their places.
pub open spec fn with_signs(
    line: Seq<u8>,
    places: Seq<usize>,
    model: Seq<Option<Literal>>,
    i: int,
) -> Seq<u8>
    decreases i,
{
    if i <= 0 {
        line
    } else if i - 1 < places.len() {
        with_signs(line, places, model, i - 1).update(
            places[i - 1] as int,
            sign_byte(model[i - 1]),
        )
    } else {
        with_signs(line, places, model, i - 1)
    }
}

/// The line after the signs of the first `i` literals of a list were
/// written, each at the place of its variable.
pub open spec fn with_literal_signs(
    line: Seq<u8>,
    places: Seq<usize>,
    literals: Seq<Literal>,
    i: int,
) -> Seq<u8>
    decreases i,
{
    if i <= 0 {
        line
    } else {
        with_literal_signs(line, places, literals, i - 1).update(
            places[literals[i - 1].var() as int] as int,
            sign_byte(Some(literals[i - 1])),
        )
    }
}

/// A structure that makes the lines that show models, and counts the models
/// shown.
///
/// In compact display a line may show a model in which free variables have
/// no literal: it stands for as many models as there are combinations of
/// polarities of these variables.
pub struct ModelWriter {
    pattern: Vec<u8>,
    sign_location: Vec<usize>,
    n_enumerated: Integer,
    n_models: Integer,
    compact_display: bool,
    do_not_print: bool,
}

impl ModelWriter {
    /// The line as it stands.
    pub closed spec fn line(&self) -> Seq<u8> {
        self.pattern@
    }

    /// The place of the sign of each variable in the line.
    pub closed spec fn sign_places(&self) -> Seq<usize> {
        self.sign_location@
    }

    /// The number of lines made.
    pub closed spec fn enumerated(&self) -> int {
        integer_value(self.n_enumerated)
    }

    /// The number of models that the lines made stand for.
    pub closed spec fn models(&self) -> int {
        integer_value(self.n_models)
    }

    /// Whether lines are counted and not made.
    pub closed spec fn silent(&self) -> bool {
        self.do_not_print
    }

    /// Whether a line may stand for several models.
    pub closed spec fn compact(&self) -> bool {
        self.compact_display
    }

    /// Each sign has its place in the line, and the places follow the
    /// order of the variables.
    pub closed spec fn wf(&self) -> bool {
        &&& forall|i: int|
            0 <= i < self.sign_location@.len() ==> (#[trigger] self.sign_location@[i])
                < self.pattern@.len()
        &&& forall|i: int, j: int|
            0 <= i < j < self.sign_location@.len() ==> (#[trigger] self.sign_location@[i]) < (
            #[trigger] self.sign_location@[j])
    }

    /// Builds a writer for the models of a formula of `n_vars` variables.
    pub fn new(n_vars: usize, compact_display: bool, do_not_print: bool) -> (r: Self)
        ensures
            r.wf(),
            r.sign_places().len() == n_vars,
            r.enumerated() == 0,
            r.models() == 0,
            r.silent() == do_not_print,
            r.compact() == compact_display,
            r.line() == blank_line(n_vars as nat),
            forall|i: int| 0 <= i < n_vars ==> #[trigger] r.sign_places()[i] == sign_place(i as nat),
    {
        let mut sign_location: Vec<usize> = Vec::new();
        let mut pattern: Vec<u8> = Vec::new();
        pattern.push(0x76);
        let mut i: usize = 0;
        proof {
            assert(pattern@ =~= vars_text(0));
        }
        while i < n_vars
            invariant
                i <= n_vars,
                sign_location@.len() == i,
                pattern@ == vars_text(i as nat),
                forall|j: int| 0 <= j < i ==> #[trigger] sign_location@[j] == sign_place(j as nat),
                forall|j: int| 0 <= j < i ==> (#[trigger] sign_location@[j]) < pattern@.len(),
                forall|a: int, b: int|
                    0 <= a < b < i ==> (#[trigger] sign_location@[a]) < (
                    #[trigger] sign_location@[b]),
            decreases n_vars - i,
        {
            let ghost before = pattern@;
            pattern.push(0x20);
            sign_location.push(pattern.len());
            pattern.push(0x20);
            push_decimal(&mut pattern, i + 1);
            proof {
                assert(pattern@ =~= before + seq![0x20u8, 0x20u8] + decimal((i + 1) as nat));
            }
            i = i + 1;
        }
        let ghost start = pattern@;
        pattern.push(0x20);
        pattern.push(0x30);
        pattern.push(0x20);
        pattern.push(0x0a);
        proof {
            assert(pattern@ =~= start + seq![0x20u8, 0x30u8, 0x20u8, 0x0au8]);
        }
        Self {
            pattern,
            sign_location,
            n_enumerated: integer_from_usize(0),
            n_models: integer_from_usize(0),
            compact_display,
            do_not_print,
        }
    }

    /// Counts the model, and returns the line that shows it unless lines
    /// are not made. Each variable is shown with the sign of its literal in
    /// the model, in the order of the variables.
    #[verifier::loop_isolation(false)]
    pub fn write_model_ordered(&mut self, model: &[Option<Literal>]) -> (r: Option<&[u8]>)
        requires
            old(self).wf(),
        ensures
            final(self).wf(),
            final(self).sign_places() == old(self).sign_places(),
            final(self).silent() == old(self).silent(),
            final(self).compact() == old(self).compact(),
            final(self).enumerated() == old(self).enumerated() + 1,
            final(self).models() == old(self).models() + pow2(count_free(model@)),
            r is None <==> old(self).silent(),
            final(self).line() == if old(self).silent() {
                old(self).line()
            } else {
                with_signs(old(self).line(), old(self).sign_places(), model@, model@.len() as int)
            },
            r matches Some(line) ==> line@ == final(self).line() && line@.len() == old(
                self,
            ).line().len() && forall|i: int|
                0 <= i < model@.len() && i < old(self).sign_places().len() ==> line@[old(
                    self,
                ).sign_places()[i] as int] == sign_byte(#[trigger] model@[i]),
    {
        let one = integer_from_usize(1);
        integer_add_assign(&mut self.n_enumerated, &one);
        let mut free: usize = 0;
        let mut i: usize = 0;
        proof {
            assert(model@.take(0) =~= Seq::<Option<Literal>>::empty());
        }
        while i < model.len()
            invariant
                i <= model.len(),
                free <= i,
                free == count_free(model@.take(i as int)),
                self.wf(),
                self.sign_location == old(self).sign_location,
                self.pattern@.len() == old(self).pattern@.len(),
                self.do_not_print == old(self).do_not_print,
                self.compact_display == old(self).compact_display,
                self.n_models == old(self).n_models,
                integer_value(self.n_enumerated) == integer_value(old(self).n_enumerated) + 1,
                !self.do_not_print ==> forall|j: int|
                    0 <= j < i && j < self.sign_location@.len() ==> self.pattern@[self.sign_location@[j] as int]
                        == sign_byte(#[trigger] model@[j]),
                self.pattern@ == if self.do_not_print {
                    old(self).pattern@
                } else {
                    with_signs(old(self).pattern@, self.sign_location@, model@, i as int)
                },
            decreases model.len() - i,
        {
            proof {
                assert(model@.take(i + 1).drop_last() =~= model@.take(i as int));
                assert(model@.take(i + 1).last() == model@[i as int]);
            }
            let sign: u8 = match model[i] {
                Some(l) => if l.polarity() {
                    0x20
                } else {
                    0x2d
                },
                None => {
                    free = free + 1;
                    0x2a
                },
            };
            if !self.do_not_print && i < self.sign_location.len() {
                let place = self.sign_location[i];
                self.pattern.set(place, sign);
            }
            i = i + 1;
        }
        proof {
            assert(model@.take(i as int) =~= model@);
        }
        let mut current_n_models = integer_from_usize(1);
        integer_shl_assign(&mut current_n_models, free);
        integer_add_assign(&mut self.n_models, &current_n_models);
        if self.do_not_print {
            None
        } else {
            Some(self.pattern.as_slice())
        }
    }

    /// Counts the model, and returns the line that shows it unless lines
    /// are not made. Each literal of the model gives its sign to its
    /// variable; the other variables keep the sign that they had.
    #[verifier::loop_isolation(false)]
    pub fn write_model_no_opt(&mut self, model: &[Literal]) -> (r: Option<&[u8]>)
        requires
            old(self).wf(),
            forall|i: int|
                0 <= i < model@.len() ==> (#[trigger] model@[i]).var() < old(self).sign_places().len(),
        ensures
            final(self).wf(),
            final(self).sign_places() == old(self).sign_places(),
            final(self).silent() == old(self).silent(),
            final(self).compact() == old(self).compact(),
            final(self).enumerated() == old(self).enumerated() + 1,
            final(self).models() == old(self).models() + 1,
            r is None <==> old(self).silent(),
            final(self).line() == if old(self).silent() {
                old(self).line()
            } else {
                with_literal_signs(
                    old(self).line(),
                    old(self).sign_places(),
                    model@,
                    model@.len() as int,
                )
            },
            r matches Some(line) ==> line@ == final(self).line() && line@.len() == old(
                self,
            ).line().len(),
    {
        let one = integer_from_usize(1);
        integer_add_assign(&mut self.n_enumerated, &one);
        integer_add_assign(&mut self.n_models, &one);
        if self.do_not_print {
            return None;
        }
        let mut i: usize = 0;
        while i < model.len()
            invariant
                i <= model.len(),
                self.wf(),
                self.sign_location == old(self).sign_location,
                self.pattern@.len() == old(self).pattern@.len(),
                self.do_not_print == old(self).do_not_print,
                self.compact_display == old(self).compact_display,
                integer_value(self.n_models) == integer_value(old(self).n_models) + 1,
                integer_value(self.n_enumerated) == integer_value(old(self).n_enumerated) + 1,
                self.pattern@ == with_literal_signs(
                    old(self).pattern@,
                    self.sign_location@,
                    model@,
                    i as int,
                ),
            decreases model.len() - i,
        {
            let l = model[i];
            let place = self.sign_location[l.var_index()];
            if l.polarity() {
                self.pattern.set(place, 0x20);
            } else {
                self.pattern.set(place, 0x2d);
            }
            i = i + 1;
        }
        Some(self.pattern.as_slice())
    }

    /// Tells whether a line may stand for several models.
    pub fn compact_display(&self) -> (r: bool)
        ensures
            r == self.compact(),
    {
        self.compact_display
    }

    /// Returns the number of lines made.
    pub fn n_enumerated(&self) -> (r: &Integer)
        ensures
            integer_value(*r) == self.enumerated(),
    {
        &self.n_enumerated
    }

    /// Returns the number of models that the lines made stand for.
    pub fn n_models(&self) -> (r: &Integer)
        ensures
            integer_value(*r) == self.models(),
    {
        &self.n_models
    }
}

} // verus!
