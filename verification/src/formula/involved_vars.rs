//! Dense sets of variables, one bit per variable.

use crate::formula::literal::Literal;
use vstd::prelude::*;

verus! {

/// The number of bits of a word of the set.
pub const N_BITS: usize = 32;

/// Whether bit `r` of `word` is set.
pub open spec fn bit(word: u32, r: u32) -> bool {
    (word >> r) & 1 == 1
}

/// The literals of the variables of `s` from `lo` up to, not including,
/// `hi`, in increasing order of variable, all of the given polarity.
pub open spec fn literals_of(s: Set<nat>, lo: nat, hi: nat, positive: bool) -> Seq<Literal>
    decreases hi,
{
    if hi <= lo {
        Seq::empty()
    } else if s.contains((hi - 1) as nat) {
        literals_of(s, lo, (hi - 1) as nat, positive).push(
            Literal::of((hi - 1) as nat, positive),
        )
    } else {
        literals_of(s, lo, (hi - 1) as nat, positive)
    }
}

/// The variables below `n` that are not in `s`.
pub open spec fn complement(s: Set<nat>, n: nat) -> Set<nat> {
    Set::new(|v: nat| v < n && !s.contains(v))
}

/// The variables that are in exactly one of `a` and `b`.
pub open spec fn symmetric_difference(a: Set<nat>, b: Set<nat>) -> Set<nat> {
    Set::new(|v: nat| a.contains(v) != b.contains(v))
}

/// The listing of a range is that of its lower part followed by that of its
/// upper part.
pub proof fn lemma_literals_of_split(s: Set<nat>, lo: nat, mid: nat, hi: nat, positive: bool)
    requires
        lo <= mid <= hi,
    ensures
        literals_of(s, lo, hi, positive) == literals_of(s, lo, mid, positive) + literals_of(
            s,
            mid,
            hi,
            positive,
        ),
    decreases hi,
{
    if hi == mid {
        assert(literals_of(s, mid, hi, positive) =~= Seq::<Literal>::empty());
        assert(literals_of(s, lo, mid, positive) + Seq::<Literal>::empty() =~= literals_of(
            s,
            lo,
            mid,
            positive,
        ));
    } else {
        lemma_literals_of_split(s, lo, mid, (hi - 1) as nat, positive);
        let a = literals_of(s, lo, mid, positive);
        let b = literals_of(s, mid, (hi - 1) as nat, positive);
        if s.contains((hi - 1) as nat) {
            let l = Literal::of((hi - 1) as nat, positive);
            assert((a + b).push(l) =~= a + b.push(l));
        }
    }
}

/// A range that holds no variable of the set lists nothing.
pub proof fn lemma_literals_of_none(s: Set<nat>, lo: nat, hi: nat, positive: bool)
    requires
        forall|v: nat| lo <= v < hi ==> !s.contains(v),
    ensures
        literals_of(s, lo, hi, positive) == Seq::<Literal>::empty(),
    decreases hi,
{
    if hi > lo {
        lemma_literals_of_none(s, lo, (hi - 1) as nat, positive);
    }
}

/// Two sets that agree on a range list the same literals there.
pub proof fn lemma_literals_of_agree(s: Set<nat>, t: Set<nat>, lo: nat, hi: nat, positive: bool)
    requires
        forall|v: nat| lo <= v < hi ==> s.contains(v) == t.contains(v),
    ensures
        literals_of(s, lo, hi, positive) == literals_of(t, lo, hi, positive),
    decreases hi,
{
    if hi > lo {
        lemma_literals_of_agree(s, t, lo, (hi - 1) as nat, positive);
    }
}

/// Every literal of a listing is of a variable of the set within the range,
/// with the polarity asked for, and the variables increase along the listing.
pub proof fn lemma_literals_of_members(s: Set<nat>, lo: nat, hi: nat, positive: bool)
    requires
        2 * hi <= usize::MAX + 1,
    ensures
        literals_of(s, lo, hi, positive).len() <= hi - lo || hi < lo,
        forall|i: int|
            0 <= i < literals_of(s, lo, hi, positive).len() ==> {
                let l = #[trigger] literals_of(s, lo, hi, positive)[i];
                &&& lo <= l.var() < hi
                &&& s.contains(l.var())
                &&& l.is_positive() == positive
            },
        forall|i: int, j: int|
            0 <= i < j < literals_of(s, lo, hi, positive).len() ==> (#[trigger] literals_of(
                s,
                lo,
                hi,
                positive,
            )[i]).var() < (#[trigger] literals_of(s, lo, hi, positive)[j]).var(),
    decreases hi,
{
    if hi > lo {
        lemma_literals_of_members(s, lo, (hi - 1) as nat, positive);
        Literal::lemma_of((hi - 1) as nat, positive);
    }
}

/// The positive literals of the bits of one word of a set, as far as their
/// variables are below a bound.
///
/// Bit `p` of `data` stands for the variable `offset + p`.
pub struct BitToLitIterator {
    n_vars: usize,
    offset: usize,
    data: u32,
}

impl BitToLitIterator {
    /// The variables that the bits set in `data` stand for.
    pub open spec fn word_set(offset: nat, data: u32) -> Set<nat> {
        Set::new(|v: nat| offset <= v < offset + 32 && bit(data, (v - offset) as u32))
    }

    /// The end of the range of variables that the word at `offset` covers
    /// below `n_vars`.
    pub open spec fn word_end(n_vars: nat, offset: nat) -> nat {
        if n_vars <= offset {
            offset
        } else if n_vars <= offset + 32 {
            n_vars
        } else {
            offset + 32
        }
    }

    /// The number of variables that bound the listing.
    pub closed spec fn n_vars(self) -> nat {
        self.n_vars as nat
    }

    /// The variable that bit 0 stands for.
    pub closed spec fn offset(self) -> nat {
        self.offset as nat
    }

    /// The bits.
    pub closed spec fn data(self) -> u32 {
        self.data
    }

    /// Prepares the listing of the bits of `data`, where bit `p` stands for
    /// variable `offset + p` and only variables below `n_vars` count.
    pub fn new(n_vars: usize, offset: usize, data: u32) -> (r: Self)
        ensures
            r.n_vars() == n_vars,
            r.offset() == offset,
            r.data() == data,
    {
        Self { n_vars, offset, data }
    }

    /// Returns the positive literals of the bits that are set, in increasing
    /// order of variable.
    pub fn collect(self) -> (r: Vec<Literal>)
        requires
            2 * self.n_vars() <= usize::MAX + 1,
        ensures
            r@ == literals_of(
                Self::word_set(self.offset(), self.data()),
                self.offset(),
                Self::word_end(self.n_vars(), self.offset()),
                true,
            ),
    {
        let mut out: Vec<Literal> = Vec::new();
        let mut p: u32 = 0;
        let ghost s = Self::word_set(self.offset as nat, self.data);
        while p < 32 && self.offset < self.n_vars && p as usize <= self.n_vars - self.offset - 1
            invariant
                p <= 32,
                2 * self.n_vars <= usize::MAX + 1,
                s == Self::word_set(self.offset as nat, self.data),
                self.offset + p <= Self::word_end(self.n_vars as nat, self.offset as nat),
                out@ == literals_of(s, self.offset as nat, (self.offset + p) as nat, true),
            decreases 32 - p,
        {
            let v: usize = self.offset + p as usize;
            if (self.data >> p) & 1 == 1 {
                assert(s.contains(v as nat));
                out.push(Literal::new(v, true));
            } else {
                assert(!s.contains(v as nat));
            }
            p = p + 1;
        }
        out
    }
}

/// A set of variables of a formula, kept as one bit per variable.
#[derive(Debug)]
pub struct InvolvedVars {
    n_vars: usize,
    data: Vec<u32>,
}

impl View for InvolvedVars {
    type V = Set<nat>;

    /// The variables of the set.
    closed spec fn view(&self) -> Set<nat> {
        Set::new(
            |v: nat| v < self.n_vars && bit(self.data@[(v / 32) as int], (v % 32) as u32),
        )
    }
}

/// Setting bit `r` of a word changes that bit and no other.
proof fn lemma_bit_set(x: u32, r: u32, s: u32)
    requires
        r < 32,
        s < 32,
    ensures
        bit(x | (1u32 << r), s) == (bit(x, s) || s == r),
{
    assert(((x | (1u32 << r)) >> s) & 1 == 1 <==> ((x >> s) & 1 == 1 || s == r)) by (bit_vector)
        requires
            r < 32,
            s < 32,
    ;
}

/// The bits of the bitwise combinations of two words.
proof fn lemma_bit_ops(x: u32, y: u32, s: u32)
    requires
        s < 32,
    ensures
        bit(x | y, s) == (bit(x, s) || bit(y, s)),
        bit(x & y, s) == (bit(x, s) && bit(y, s)),
        bit(x ^ y, s) == (bit(x, s) != bit(y, s)),
        bit(!x, s) == !bit(x, s),
        !bit(0u32, s),
{
    assert(((x | y) >> s) & 1 == 1 <==> ((x >> s) & 1 == 1 || (y >> s) & 1 == 1)) by (bit_vector)
        requires
            s < 32,
    ;
    assert(((x & y) >> s) & 1 == 1 <==> ((x >> s) & 1 == 1 && (y >> s) & 1 == 1)) by (bit_vector)
        requires
            s < 32,
    ;
    assert(((x ^ y) >> s) & 1 == 1 <==> (((x >> s) & 1 == 1) != ((y >> s) & 1 == 1)))
        by (bit_vector)
        requires
            s < 32,
    ;
    assert(((!x) >> s) & 1 == 1 <==> !((x >> s) & 1 == 1)) by (bit_vector)
        requires
            s < 32,
    ;
    assert((0u32 >> s) & 1 != 1) by (bit_vector)
        requires
            s < 32,
    ;
}

/// A word with all bits set has each bit set; a word that is not zero has a
/// bit set.
proof fn lemma_bit_extremes(x: u32)
    ensures
        x == 0xffff_ffffu32 ==> forall|s: u32| s < 32 ==> bit(x, s),
        x == 0 ==> forall|s: u32| s < 32 ==> !bit(x, s),
        x != 0 ==> exists|s: u32| s < 32 && bit(x, s),
{
    assert forall|s: u32| s < 32 && x == 0xffff_ffffu32 implies bit(x, s) by {
        assert((x >> s) & 1 == 1) by (bit_vector)
            requires
                s < 32,
                x == 0xffff_ffffu32,
        ;
    }
    assert forall|s: u32| s < 32 && x == 0 implies !bit(x, s) by {
        assert((x >> s) & 1 != 1) by (bit_vector)
            requires
                s < 32,
                x == 0,
        ;
    }
    if x != 0 {
        assert(((x >> 0) & 1 == 1) || ((x >> 1) & 1 == 1) || ((x >> 2) & 1 == 1) || ((x >> 3) & 1
            == 1) || ((x >> 4) & 1 == 1) || ((x >> 5) & 1 == 1) || ((x >> 6) & 1 == 1) || ((x >> 7)
            & 1 == 1) || ((x >> 8) & 1 == 1) || ((x >> 9) & 1 == 1) || ((x >> 10) & 1 == 1) || ((x
            >> 11) & 1 == 1) || ((x >> 12) & 1 == 1) || ((x >> 13) & 1 == 1) || ((x >> 14) & 1
            == 1) || ((x >> 15) & 1 == 1) || ((x >> 16) & 1 == 1) || ((x >> 17) & 1 == 1) || ((x
            >> 18) & 1 == 1) || ((x >> 19) & 1 == 1) || ((x >> 20) & 1 == 1) || ((x >> 21) & 1
            == 1) || ((x >> 22) & 1 == 1) || ((x >> 23) & 1 == 1) || ((x >> 24) & 1 == 1) || ((x
            >> 25) & 1 == 1) || ((x >> 26) & 1 == 1) || ((x >> 27) & 1 == 1) || ((x >> 28) & 1
            == 1) || ((x >> 29) & 1 == 1) || ((x >> 30) & 1 == 1) || ((x >> 31) & 1 == 1))
            by (bit_vector)
            requires
                x != 0,
        ;
        let s: u32 = if bit(x, 0) {
            0
        } else if bit(x, 1) {
            1
        } else if bit(x, 2) {
            2
        } else if bit(x, 3) {
            3
        } else if bit(x, 4) {
            4
        } else if bit(x, 5) {
            5
        } else if bit(x, 6) {
            6
        } else if bit(x, 7) {
            7
        } else if bit(x, 8) {
            8
        } else if bit(x, 9) {
            9
        } else if bit(x, 10) {
            10
        } else if bit(x, 11) {
            11
        } else if bit(x, 12) {
            12
        } else if bit(x, 13) {
            13
        } else if bit(x, 14) {
            14
        } else if bit(x, 15) {
            15
        } else if bit(x, 16) {
            16
        } else if bit(x, 17) {
            17
        } else if bit(x, 18) {
            18
        } else if bit(x, 19) {
            19
        } else if bit(x, 20) {
            20
        } else if bit(x, 21) {
            21
        } else if bit(x, 22) {
            22
        } else if bit(x, 23) {
            23
        } else if bit(x, 24) {
            24
        } else if bit(x, 25) {
            25
        } else if bit(x, 26) {
            26
        } else if bit(x, 27) {
            27
        } else if bit(x, 28) {
            28
        } else if bit(x, 29) {
            29
        } else if bit(x, 30) {
            30
        } else {
            31
        };
        assert(s < 32 && bit(x, s));
    }
}

impl InvolvedVars {
    /// The number of variables that the set ranges over.
    pub closed spec fn capacity(&self) -> nat {
        self.n_vars as nat
    }

    /// The words hold one bit for each variable, and no bit beyond.
    pub closed spec fn wf(&self) -> bool {
        &&& 2 * self.n_vars <= usize::MAX + 1
        &&& self.data@.len() * 32 >= self.n_vars
        &&& self.data@.len() * 32 < self.n_vars + 32
        &&& forall|w: int, r: u32|
            0 <= w < self.data@.len() && r < 32 && #[trigger] bit(self.data@[w], r) ==> w * 32 + r
                < self.n_vars
    }

    /// The members of a set are variables below its capacity.
    pub broadcast proof fn lemma_members(&self, v: nat)
        requires
            #[trigger] self@.contains(v),
        ensures
            v < self.capacity(),
    {
    }

    /// Creates the empty set over the variables below `n_vars`.
    pub fn new(n_vars: usize) -> (r: Self)
        requires
            2 * n_vars <= usize::MAX + 1,
        ensures
            r.wf(),
            r.capacity() == n_vars,
            r@ == Set::<nat>::empty(),
    {
        let n_words: usize = n_vars / 32 + if n_vars % 32 != 0 {
            1
        } else {
            0
        };
        let mut data: Vec<u32> = Vec::new();
        let mut i: usize = 0;
        while i < n_words
            invariant
                i <= n_words,
                data@.len() == i,
                forall|w: int| 0 <= w < i ==> data@[w] == 0u32,
            decreases n_words - i,
        {
            data.push(0);
            i = i + 1;
        }
        proof {
            assert forall|w: int, r: u32| 0 <= w < data@.len() && r < 32 implies !#[trigger] bit(
                data@[w],
                r,
            ) by {
                lemma_bit_ops(0, 0, r);
            }
        }
        let r = Self { n_vars, data };
        assert(r@ =~= Set::<nat>::empty());
        r
    }

    /// Adds the variable of `l` to the set.
    pub fn set_literal(&mut self, l: Literal)
        requires
            old(self).wf(),
            l.var() < old(self).capacity(),
        ensures
            final(self).wf(),
            final(self).capacity() == old(self).capacity(),
            final(self)@ == old(self)@.insert(l.var()),
    {
        let index = l.var_index();
        let div = index / N_BITS;
        let rem: u32 = (index % N_BITS) as u32;
        let word = self.data[div];
        let ghost before = *self;
        let new_word = word | (1u32 << rem);
        proof {
            assert forall|s: u32| s < 32 implies bit(new_word, s) == (bit(word, s) || s == rem) by {
                lemma_bit_set(word, rem, s);
            }
        }
        self.data.set(div, new_word);
        proof {
            assert forall|v: nat| self@.contains(v) == before@.insert(l.var()).contains(v) by {
                if v < self.n_vars {
                    let w = (v / 32) as int;
                    let s = (v % 32) as u32;
                    if w == div {
                        assert(bit(new_word, s) == (bit(word, s) || s == rem));
                    }
                }
            }
            assert(self@ =~= before@.insert(l.var()));
        }
    }

    /// Tells whether the variable of `l` is in the set.
    pub fn is_set(&self, l: Literal) -> (b: bool)
        requires
            self.wf(),
            l.var() < self.capacity(),
        ensures
            b == self@.contains(l.var()),
    {
        let index = l.var_index();
        let div = index / N_BITS;
        let rem: u32 = (index % N_BITS) as u32;
        (self.data[div] >> rem) & 1 == 1
    }

    /// Tells whether the set holds a variable.
    pub fn any(&self) -> (b: bool)
        requires
            self.wf(),
        ensures
            b == (exists|v: nat| self@.contains(v)),
    {
        let mut i: usize = 0;
        while i < self.data.len()
            invariant
                i <= self.data@.len(),
                self.wf(),
                forall|w: int, r: u32| 0 <= w < i && r < 32 ==> !#[trigger] bit(self.data@[w], r),
            decreases self.data.len() - i,
        {
            if self.data[i] != 0 {
                proof {
                    lemma_bit_extremes(self.data@[i as int]);
                    let s = choose|s: u32| s < 32 && bit(self.data@[i as int], s);
                    let v = (i * 32 + s) as nat;
                    assert(v / 32 == i && v % 32 == s);
                    assert(bit(self.data@[i as int], s));
                    assert(i * 32 + s < self.n_vars);
                    assert(bit(self.data@[(v / 32) as int], (v % 32) as u32));
                    assert(self@.contains(v));
                }
                return true;
            }
            proof {
                lemma_bit_extremes(self.data@[i as int]);
            }
            i = i + 1;
        }
        proof {
            assert forall|v: nat| !self@.contains(v) by {
                if v < self.n_vars {
                    assert(!bit(self.data@[(v / 32) as int], (v % 32) as u32));
                }
            }
        }
        false
    }

    /// Adds the variables of `literals` to the set.
    pub fn set_literals(&mut self, literals: &[Literal])
        requires
            old(self).wf(),
            forall|i: int|
                0 <= i < literals@.len() ==> (#[trigger] literals@[i]).var() < old(self).capacity(),
        ensures
            final(self).wf(),
            final(self).capacity() == old(self).capacity(),
            final(self)@ == old(self)@.union(literal_vars(literals@)),
    {
        let mut i: usize = 0;
        assert(self@ =~= old(self)@.union(literal_vars(literals@.take(0))));
        while i < literals.len()
            invariant
                i <= literals.len(),
                self.wf(),
                self.capacity() == old(self).capacity(),
                forall|j: int|
                    0 <= j < literals@.len() ==> (#[trigger] literals@[j]).var() < self.capacity(),
                self@ == old(self)@.union(literal_vars(literals@.take(i as int))),
            decreases literals.len() - i,
        {
            self.set_literal(literals[i]);
            proof {
                let t0 = literals@.take(i as int);
                let t1 = literals@.take(i + 1);
                let a = literal_vars(t0);
                let b = literal_vars(t1);
                assert forall|v: nat| b.contains(v) == (a.contains(v) || v == literals@[i as int].var()) by {
                    if a.contains(v) {
                        let j = choose|j: int| 0 <= j < t0.len() && (#[trigger] t0[j]).var() == v;
                        assert(t1[j].var() == v);
                    }
                    if v == literals@[i as int].var() {
                        assert(t1[i as int].var() == v);
                    }
                    if b.contains(v) {
                        let j = choose|j: int| 0 <= j < t1.len() && (#[trigger] t1[j]).var() == v;
                        if j < i {
                            assert(t0[j].var() == v);
                        }
                    }
                }
                assert(self@ =~= old(self)@.union(b));
            }
            i = i + 1;
        }
        assert(literals@.take(i as int) =~= literals@);
    }

    /// Keeps the variables that are also in `rhs`.
    pub fn and_assign(&mut self, rhs: &InvolvedVars)
        requires
            old(self).wf(),
            rhs.wf(),
            rhs.capacity() == old(self).capacity(),
        ensures
            final(self).wf(),
            final(self).capacity() == old(self).capacity(),
            final(self)@ == old(self)@.intersect(rhs@),
    {
        let ghost before = *self;
        let mut i: usize = 0;
        while i < self.data.len()
            invariant
                i <= self.data@.len(),
                self.n_vars == before.n_vars,
                rhs.n_vars == before.n_vars,
                self.data@.len() == before.data@.len(),
                rhs.data@.len() == before.data@.len(),
                forall|w: int| 0 <= w < i ==> self.data@[w] == before.data@[w] & rhs.data@[w],
                forall|w: int| i <= w < self.data@.len() ==> self.data@[w] == before.data@[w],
                self.wf(),
                before.wf(),
            decreases self.data.len() - i,
        {
            let word = self.data[i] & rhs.data[i];
            proof {
                assert forall|r: u32| r < 32 && bit(word, r) implies bit(before.data@[i as int], r) by {
                    lemma_bit_ops(before.data@[i as int], rhs.data@[i as int], r);
                }
            }
            let ghost prev = self.data@;
            self.data.set(i, word);
            proof {
                assert forall|w: int, r: u32|
                    0 <= w < self.data@.len() && r < 32 && #[trigger] bit(
                        self.data@[w],
                        r,
                    ) implies w * 32 + r < self.n_vars by {
                    if w == i {
                        assert(bit(before.data@[i as int], r));
                    } else {
                        assert(bit(prev[w], r));
                    }
                }
            }
            i = i + 1;
        }
        proof {
            assert forall|v: nat| self@.contains(v) == before@.intersect(rhs@).contains(v) by {
                if v < self.n_vars {
                    lemma_bit_ops(
                        before.data@[(v / 32) as int],
                        rhs.data@[(v / 32) as int],
                        (v % 32) as u32,
                    );
                }
            }
            assert(self@ =~= before@.intersect(rhs@));
        }
    }

    /// Adds the variables of `rhs`.
    pub fn or_assign(&mut self, rhs: &InvolvedVars)
        requires
            old(self).wf(),
            rhs.wf(),
            rhs.capacity() == old(self).capacity(),
        ensures
            final(self).wf(),
            final(self).capacity() == old(self).capacity(),
            final(self)@ == old(self)@.union(rhs@),
    {
        let ghost before = *self;
        let mut i: usize = 0;
        while i < self.data.len()
            invariant
                i <= self.data@.len(),
                self.n_vars == before.n_vars,
                rhs.n_vars == before.n_vars,
                self.data@.len() == before.data@.len(),
                rhs.data@.len() == before.data@.len(),
                forall|w: int| 0 <= w < i ==> self.data@[w] == before.data@[w] | rhs.data@[w],
                forall|w: int| i <= w < self.data@.len() ==> self.data@[w] == before.data@[w],
                self.wf(),
                before.wf(),
                rhs.wf(),
            decreases self.data.len() - i,
        {
            let word = self.data[i] | rhs.data[i];
            proof {
                assert forall|r: u32| r < 32 && bit(word, r) implies bit(before.data@[i as int], r)
                    || bit(rhs.data@[i as int], r) by {
                    lemma_bit_ops(before.data@[i as int], rhs.data@[i as int], r);
                }
            }
            let ghost prev = self.data@;
            self.data.set(i, word);
            proof {
                assert forall|w: int, r: u32|
                    0 <= w < self.data@.len() && r < 32 && #[trigger] bit(
                        self.data@[w],
                        r,
                    ) implies w * 32 + r < self.n_vars by {
                    if w == i {
                        assert(bit(before.data@[i as int], r) || bit(rhs.data@[i as int], r));
                    } else {
                        assert(bit(prev[w], r));
                    }
                }
            }
            i = i + 1;
        }
        proof {
            assert forall|v: nat| self@.contains(v) == before@.union(rhs@).contains(v) by {
                if v < self.n_vars {
                    lemma_bit_ops(
                        before.data@[(v / 32) as int],
                        rhs.data@[(v / 32) as int],
                        (v % 32) as u32,
                    );
                }
            }
            assert(self@ =~= before@.union(rhs@));
        }
    }

    /// Keeps the variables that are in exactly one of the two sets.
    pub fn xor_assign(&mut self, rhs: &InvolvedVars)
        requires
            old(self).wf(),
            rhs.wf(),
            rhs.capacity() == old(self).capacity(),
        ensures
            final(self).wf(),
            final(self).capacity() == old(self).capacity(),
            final(self)@ == symmetric_difference(old(self)@, rhs@),
    {
        let ghost before = *self;
        let mut i: usize = 0;
        while i < self.data.len()
            invariant
                i <= self.data@.len(),
                self.n_vars == before.n_vars,
                rhs.n_vars == before.n_vars,
                self.data@.len() == before.data@.len(),
                rhs.data@.len() == before.data@.len(),
                forall|w: int| 0 <= w < i ==> self.data@[w] == before.data@[w] ^ rhs.data@[w],
                forall|w: int| i <= w < self.data@.len() ==> self.data@[w] == before.data@[w],
                self.wf(),
                before.wf(),
                rhs.wf(),
            decreases self.data.len() - i,
        {
            let word = self.data[i] ^ rhs.data[i];
            proof {
                assert forall|r: u32| r < 32 && bit(word, r) implies bit(before.data@[i as int], r)
                    || bit(rhs.data@[i as int], r) by {
                    lemma_bit_ops(before.data@[i as int], rhs.data@[i as int], r);
                }
            }
            let ghost prev = self.data@;
            self.data.set(i, word);
            proof {
                assert forall|w: int, r: u32|
                    0 <= w < self.data@.len() && r < 32 && #[trigger] bit(
                        self.data@[w],
                        r,
                    ) implies w * 32 + r < self.n_vars by {
                    if w == i {
                        assert(bit(before.data@[i as int], r) || bit(rhs.data@[i as int], r));
                    } else {
                        assert(bit(prev[w], r));
                    }
                }
            }
            i = i + 1;
        }
        proof {
            assert forall|v: nat|
                self@.contains(v) == symmetric_difference(before@, rhs@).contains(v) by {
                if v < self.n_vars {
                    lemma_bit_ops(
                        before.data@[(v / 32) as int],
                        rhs.data@[(v / 32) as int],
                        (v % 32) as u32,
                    );
                }
            }
            assert(self@ =~= symmetric_difference(before@, rhs@));
        }
    }

    /// Returns the negative literals of the variables that are not in the
    /// set, in increasing order of variable.
    pub fn iter_missing_literals(&self) -> (r: Vec<Literal>)
        requires
            self.wf(),
        ensures
            r@ == literals_of(complement(self@, self.capacity()), 0, self.capacity(), false),
    {
        let mut out: Vec<Literal> = Vec::new();
        let ghost s = complement(self@, self.capacity());
        let mut w: usize = 0;
        while w < self.data.len()
            invariant
                w <= self.data@.len(),
                self.wf(),
                s == complement(self@, self.capacity()),
                out@ == literals_of(
                    s,
                    0,
                    if w * 32 <= self.n_vars {
                        (w * 32) as nat
                    } else {
                        self.n_vars as nat
                    },
                    false,
                ),
            decreases self.data.len() - w,
        {
            let word = self.data[w];
            let ghost lo = (w * 32) as nat;
            let ghost hi = BitToLitIterator::word_end(self.n_vars as nat, lo);
            proof {
                assert(lo < self.n_vars);
                lemma_literals_of_split(s, 0, lo, hi, false);
            }
            if word != 0xffff_ffffu32 {
                let positives = BitToLitIterator::new(self.n_vars, w * 32, !word).collect();
                proof {
                    let t = BitToLitIterator::word_set(lo, !word);
                    assert forall|v: nat| lo <= v < hi implies s.contains(v) == t.contains(v) by {
                        lemma_bit_ops(word, 0, (v - lo) as u32);
                        assert(v / 32 == w && v % 32 == v - lo);
                    }
                    lemma_literals_of_agree(s, t, lo, hi, true);
                    lemma_literals_of_flip(s, lo, hi);
                }
                let mut j: usize = 0;
                let ghost start = out@;
                assert(out@ =~= start + flip_all(positives@.take(0)));
                while j < positives.len()
                    invariant
                        j <= positives.len(),
                        out@ == start + flip_all(positives@.take(j as int)),
                    decreases positives.len() - j,
                {
                    out.push(positives[j].flip());
                    proof {
                        assert(positives@.take(j + 1) =~= positives@.take(j as int).push(
                            positives@[j as int],
                        ));
                        assert(flip_all(positives@.take(j + 1)) =~= flip_all(
                            positives@.take(j as int),
                        ).push(positives@[j as int].flipped()));
                        assert(out@ =~= start + flip_all(positives@.take(j + 1)));
                    }
                    j = j + 1;
                }
                proof {
                    assert(positives@.take(j as int) =~= positives@);
                }
            } else {
                proof {
                    lemma_bit_extremes(word);
                    assert forall|v: nat| lo <= v < hi implies !s.contains(v) by {
                        assert(v / 32 == w && v % 32 == v - lo);
                        assert(bit(word, (v % 32) as u32));
                    }
                    lemma_literals_of_none(s, lo, hi, false);
                    assert(out@ + Seq::<Literal>::empty() =~= out@);
                }
            }
            w = w + 1;
        }
        out
    }

    /// Returns the negative literals of the variables that are in exactly one
    /// of the two sets, in increasing order of variable.
    pub fn iter_xor_neg_literals(set0: &InvolvedVars, set1: &InvolvedVars) -> (r: Vec<Literal>)
        requires
            set0.wf(),
            set1.wf(),
            set0.capacity() == set1.capacity(),
        ensures
            r@ == literals_of(symmetric_difference(set0@, set1@), 0, set0.capacity(), false),
    {
        let mut both = set0.clone();
        both.xor_assign(set1);
        let mut none = InvolvedVars::new_full(set0.n_vars());
        none.xor_assign(&both);
        proof {
            assert(none@ =~= complement(both@, set0.capacity()));
            assert(complement(none@, set0.capacity()) =~= both@) by {
                assert forall|v: nat| both@.contains(v) implies v < set0.capacity() by {
                    both.lemma_members(v);
                }
            }
        }
        none.iter_missing_literals()
    }

    /// Returns the number of variables that the set ranges over.
    pub fn n_vars(&self) -> (n: usize)
        requires
            self.wf(),
        ensures
            n == self.capacity(),
            2 * n <= usize::MAX + 1,
    {
        self.n_vars
    }

    /// Creates the set of all the variables below `n_vars`.
    pub fn new_full(n_vars: usize) -> (r: Self)
        requires
            2 * n_vars <= usize::MAX + 1,
        ensures
            r.wf(),
            r.capacity() == n_vars,
            r@ == Set::new(|v: nat| v < n_vars),
    {
        let mut r = InvolvedVars::new(n_vars);
        let mut v: usize = 0;
        while v < n_vars
            invariant
                v <= n_vars,
                2 * n_vars <= usize::MAX + 1,
                r.wf(),
                r.capacity() == n_vars,
                r@ == Set::new(|u: nat| u < v),
            decreases n_vars - v,
        {
            r.set_literal(Literal::new(v, true));
            assert(r@ =~= Set::new(|u: nat| u < v + 1));
            v = v + 1;
        }
        r
    }
}

impl Clone for InvolvedVars {
    /// Returns a set with the same variables.
    fn clone(&self) -> (r: Self)
        ensures
            self.wf() ==> r.wf(),
            r@ == self@,
            r.capacity() == self.capacity(),
    {
        let mut data: Vec<u32> = Vec::new();
        let mut i: usize = 0;
        while i < self.data.len()
            invariant
                i <= self.data@.len(),
                data@ == self.data@.take(i as int),
            decreases self.data.len() - i,
        {
            data.push(self.data[i]);
            assert(data@ =~= self.data@.take(i + 1));
            i = i + 1;
        }
        assert(data@ =~= self.data@);
        let r = Self { n_vars: self.n_vars, data };
        assert(r@ =~= self@);
        r
    }
}

/// The variables of a list of literals.
pub open spec fn literal_vars(literals: Seq<Literal>) -> Set<nat> {
    Set::new(|v: nat| exists|i: int| 0 <= i < literals.len() && (#[trigger] literals[i]).var() == v)
}

/// Each literal of a list, flipped.
pub open spec fn flip_all(literals: Seq<Literal>) -> Seq<Literal> {
    Seq::new(literals.len(), |i: int| literals[i].flipped())
}

/// The negative listing of a range is the positive one with each literal
/// flipped.
pub proof fn lemma_literals_of_flip(s: Set<nat>, lo: nat, hi: nat)
    requires
        2 * hi <= usize::MAX + 1,
    ensures
        literals_of(s, lo, hi, false) == flip_all(literals_of(s, lo, hi, true)),
    decreases hi,
{
    if hi > lo {
        lemma_literals_of_flip(s, lo, (hi - 1) as nat);
        Literal::lemma_of((hi - 1) as nat, true);
        if s.contains((hi - 1) as nat) {
            assert(literals_of(s, lo, hi, false) =~= flip_all(literals_of(s, lo, hi, true)));
        }
    } else {
        assert(literals_of(s, lo, hi, false) =~= flip_all(literals_of(s, lo, hi, true)));
    }
}

} // verus!
