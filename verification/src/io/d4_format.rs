//! The d4 format: the text in which the d4 compiler writes a formula.
//!
//! The text is a sequence of lines, each a sequence of words separated by
//! blanks. A node line is a letter (`a`, `o`, `t` or `f`), the 1-based index
//! of the node and `0`. An edge line is the index of the source, the index
//! of the target, the literals that the edge propagates and `0`.

use crate::algorithms::orphan_nodes_and_edges::OrphanFinder;
use crate::error::Error;
use crate::error::ReadError;
use crate::formula::decision_dnnf::DecisionDNNF;
use crate::formula::decision_dnnf::Edge;
use crate::formula::decision_dnnf::EdgeIndex;
use crate::formula::decision_dnnf::Formula;
use crate::formula::decision_dnnf::Node;
use crate::formula::decision_dnnf::NodeIndex;
use crate::formula::decision_dnnf::edge_models;
use crate::formula::decision_dnnf::node_models;
use crate::formula::literal::Literal;
use crate::error::alike;
use crate::io::d4_grammar::after_line;
use crate::io::d4_grammar::after_lines;
use crate::io::d4_grammar::edge_line;
use crate::io::d4_grammar::graph_fault;
use crate::io::d4_grammar::is_label;
use crate::io::d4_grammar::lemma_sorted_once;
use crate::io::d4_grammar::lemma_words_of;
use crate::io::d4_grammar::line_end;
use crate::io::d4_grammar::node_line;
use crate::io::d4_grammar::node_with_edge;
use crate::io::d4_grammar::parse;
use crate::io::d4_grammar::scan_literals;
use crate::io::d4_grammar::with_edge;
use crate::io::d4_grammar::with_node;
use crate::io::d4_grammar::word_texts;
use crate::io::d4_grammar::word_vec;
use crate::io::d4_grammar::words_of;
use crate::io::DecisionDNNFReader;
use vstd::prelude::*;

verus! {

/// Whether the byte separates words.
pub open spec fn is_space(b: u8) -> bool {
    b == 0x20 || (0x09 <= b && b <= 0x0d)
}

/// Whether the byte is a decimal digit.
pub open spec fn is_digit(b: u8) -> bool {
    0x30 <= b && b <= 0x39
}

/// The number that the decimal digits `digits` write, read from the left:
/// the first byte that is no digit, or the first digit with which the number
/// exceeds `max`, makes an error.
pub open spec fn scan_digits(digits: Seq<u8>, max: nat) -> Result<nat, Error>
    decreases digits.len(),
{
    if digits.len() == 0 {
        Ok(0)
    } else {
        match scan_digits(digits.drop_last(), max) {
            Err(e) => Err(e),
            Ok(v) => if !is_digit(digits.last()) {
                Err(Error::InvalidDigit)
            } else if 10 * v + (digits.last() - 0x30) > max {
                Err(Error::NumberTooLarge)
            } else {
                Ok((10 * v + (digits.last() - 0x30)) as nat)
            },
        }
    }
}

/// The number that a word writes, as an index is read: decimal digits,
/// after a `+` or not.
pub open spec fn parse_index(word: Seq<u8>) -> Result<nat, Error> {
    let digits = if word.len() > 0 && word[0] == 0x2b {
        word.subrange(1, word.len() as int)
    } else {
        word
    };
    if digits.len() == 0 {
        Err(Error::InvalidDigit)
    } else {
        scan_digits(digits, usize::MAX as nat)
    }
}

/// The number that a word writes, as a literal is read: decimal digits,
/// after a `+` or a `-` or not.
pub open spec fn parse_signed(word: Seq<u8>) -> Option<int> {
    if word.len() > 0 && word[0] == 0x2d {
        let digits = word.subrange(1, word.len() as int);
        if digits.len() == 0 {
            None
        } else {
            match scan_digits(digits, (isize::MAX + 1) as nat) {
                Ok(v) => Some(-(v as int)),
                Err(_) => None,
            }
        }
    } else {
        let digits = if word.len() > 0 && word[0] == 0x2b {
            word.subrange(1, word.len() as int)
        } else {
            word
        };
        if digits.len() == 0 {
            None
        } else {
            match scan_digits(digits, isize::MAX as nat) {
                Ok(v) => Some(v as int),
                Err(_) => None,
            }
        }
    }
}

/// Whether `ranges` are the words of the part of `s` from `lo` to `hi`: the
/// maximal runs of bytes that are no blanks, from left to right.
pub open spec fn is_word_split(s: Seq<u8>, lo: int, hi: int, ranges: Seq<(usize, usize)>) -> bool {
    &&& forall|k: int|
        0 <= k < ranges.len() ==> lo <= (#[trigger] ranges[k]).0 < ranges[k].1 <= hi
    &&& forall|k: int, p: int|
        #![trigger ranges[k], s[p]]
        0 <= k < ranges.len() && ranges[k].0 <= p < ranges[k].1 ==> !is_space(s[p])
    &&& forall|k: int|
        0 <= k < ranges.len() && (#[trigger] ranges[k]).1 < hi ==> is_space(
            s[ranges[k].1 as int],
        )
    &&& forall|k: int|
        0 <= k < ranges.len() && lo < (#[trigger] ranges[k]).0 ==> is_space(s[ranges[k].0 - 1])
    &&& forall|k: int, l: int|
        0 <= k < l < ranges.len() ==> (#[trigger] ranges[k]).1 < (#[trigger] ranges[l]).0
    &&& forall|p: int|
        lo <= p < hi && !is_space(#[trigger] s[p]) ==> exists|k: int|
            0 <= k < ranges.len() && (#[trigger] ranges[k]).0 <= p < ranges[k].1
}

/// Tells whether the byte separates words.
pub fn is_space_byte(b: u8) -> (r: bool)
    ensures
        r == is_space(b),
{
    b == 0x20 || (0x09 <= b && b <= 0x0d)
}

/// Reads decimal digits from the position `from` of `word` to its end, as a
/// number that does not exceed `max`.
pub fn scan_number(word: &[u8], from: usize, max: usize) -> (r: Result<usize, Error>)
    requires
        from <= word@.len(),
    ensures
        match scan_digits(word@.subrange(from as int, word@.len() as int), max as nat) {
            Ok(v) => r == Ok::<usize, Error>(v as usize) && v <= max,
            Err(e) => r == Err::<usize, Error>(e),
        },
{
    let mut acc: usize = 0;
    let mut i: usize = from;
    let ghost digits = word@.subrange(from as int, word@.len() as int);
    proof {
        assert(digits.take(0) =~= Seq::<u8>::empty());
    }
    while i < word.len()
        invariant
            from <= i <= word@.len(),
            digits == word@.subrange(from as int, word@.len() as int),
            scan_digits(digits.take(i - from), max as nat) == Ok::<nat, Error>(acc as nat),
            acc <= max,
        decreases word.len() - i,
    {
        let b = word[i];
        proof {
            assert(digits.take(i - from + 1).drop_last() =~= digits.take(i - from));
            assert(digits.take(i - from + 1).last() == b);
        }
        if !(0x30 <= b && b <= 0x39) {
            proof {
                lemma_scan_error_stays(digits, i - from + 1, max as nat);
            }
            return Err(Error::InvalidDigit);
        }
        let d: usize = (b - 0x30) as usize;
        if d > max || acc > (max - d) / 10 {
            proof {
                lemma_scan_error_stays(digits, i - from + 1, max as nat);
            }
            return Err(Error::NumberTooLarge);
        }
        acc = 10 * acc + d;
        i = i + 1;
    }
    proof {
        assert(digits.take(i - from) =~= digits);
    }
    Ok(acc)
}

/// An error met while reading the first digits is the error of the whole.
pub proof fn lemma_scan_error_stays(digits: Seq<u8>, k: int, max: nat)
    requires
        0 <= k <= digits.len(),
        scan_digits(digits.take(k), max) is Err,
    ensures
        scan_digits(digits, max) == scan_digits(digits.take(k), max),
    decreases digits.len() - k,
{
    if k < digits.len() {
        assert(digits.take(k + 1).drop_last() =~= digits.take(k));
        lemma_scan_error_stays(digits, k + 1, max);
    } else {
        assert(digits.take(k) =~= digits);
    }
}

/// Reads a word as an index.
pub fn parse_usize(word: &[u8]) -> (r: Result<usize, Error>)
    ensures
        match parse_index(word@) {
            Ok(v) => r == Ok::<usize, Error>(v as usize) && v <= usize::MAX,
            Err(e) => r == Err::<usize, Error>(e),
        },
{
    let from: usize = if word.len() > 0 && word[0] == 0x2b {
        1
    } else {
        0
    };
    proof {
        assert(word@.subrange(0, word@.len() as int) =~= word@);
    }
    if from == word.len() {
        return Err(Error::InvalidDigit);
    }
    scan_number(word, from, usize::MAX)
}

/// Reads a word as the number of a literal.
pub fn parse_isize(word: &[u8]) -> (r: Option<isize>)
    ensures
        match parse_signed(word@) {
            Some(v) => r == Some(v as isize) && isize::MIN <= v <= isize::MAX,
            None => r is None,
        },
{
    proof {
        assert(word@.subrange(0, word@.len() as int) =~= word@);
    }
    if word.len() > 0 && word[0] == 0x2d {
        if word.len() == 1 {
            return None;
        }
        match scan_number(word, 1, (isize::MAX as usize) + 1) {
            Ok(v) => {
                if v == (isize::MAX as usize) + 1 {
                    Some(isize::MIN)
                } else {
                    Some(-(v as isize))
                }
            },
            Err(_) => None,
        }
    } else {
        let from: usize = if word.len() > 0 && word[0] == 0x2b {
            1
        } else {
            0
        };
        if from == word.len() {
            return None;
        }
        match scan_number(word, from, isize::MAX as usize) {
            Ok(v) => Some(v as isize),
            Err(_) => None,
        }
    }
}

/// Returns the places of the words of the part of `input` from `lo` to
/// `hi`.
pub fn split_words(input: &[u8], lo: usize, hi: usize) -> (r: Vec<(usize, usize)>)
    requires
        lo <= hi <= input@.len(),
    ensures
        is_word_split(input@, lo as int, hi as int, r@),
{
    let mut words: Vec<(usize, usize)> = Vec::new();
    let mut i: usize = lo;
    while i < hi
        invariant
            lo <= i <= hi <= input@.len(),
            is_word_split(input@, lo as int, i as int, words@),
            i < hi && i > lo && words@.len() > 0 && words@.last().1 == i ==> is_space(
                input@[i as int],
            ),
        decreases hi - i,
    {
        if is_space_byte(input[i]) {
            i = i + 1;
        } else {
            let start = i;
            while i < hi && !is_space_byte(input[i])
                invariant
                    lo <= start <= i <= hi <= input@.len(),
                    start < hi,
                    !is_space(input@[start as int]),
                    forall|p: int| start <= p < i ==> !is_space(#[trigger] input@[p]),
                decreases hi - i,
            {
                i = i + 1;
            }
            let ghost before = words@;
            words.push((start, i));
            proof {
                assert(i > start);
                assert forall|p: int|
                    lo <= p < i && !is_space(#[trigger] input@[p]) implies exists|k: int|
                    0 <= k < words@.len() && (#[trigger] words@[k]).0 <= p < words@[k].1 by {
                    if p < start {
                        let k = choose|k: int|
                            0 <= k < before.len() && (#[trigger] before[k]).0 <= p < before[k].1;
                        assert(words@[k] == before[k]);
                    } else {
                        assert(words@[before.len() as int].0 <= p);
                    }
                }
                assert forall|k: int|
                    0 <= k < words@.len() && lo < (#[trigger] words@[k]).0 implies is_space(
                    input@[words@[k].0 - 1],
                ) by {
                    if k == before.len() {
                        if !is_space(input@[start - 1]) {
                            let j = choose|j: int|
                                0 <= j < before.len() && (#[trigger] before[j]).0 <= start - 1
                                    < before[j].1;
                            assert(before[j].1 == start);
                            assert(before.last().1 >= before[j].1);
                        }
                    } else {
                        assert(words@[k] == before[k]);
                    }
                }
                assert forall|k: int, l: int| 0 <= k < l < words@.len() implies (
                #[trigger] words@[k]).1 < (#[trigger] words@[l]).0 by {
                    if l == before.len() {
                        assert(words@[k] == before[k]);
                        assert(before[k].1 <= start);
                        if before[k].1 == start {
                            assert(is_space(input@[start as int]));
                        }
                    } else {
                        assert(words@[k] == before[k] && words@[l] == before[l]);
                    }
                }
                assert forall|k: int|
                    0 <= k < words@.len() && (#[trigger] words@[k]).1 < i implies is_space(
                    input@[words@[k].1 as int],
                ) by {
                    if k < before.len() {
                        assert(words@[k] == before[k]);
                    }
                }
                assert forall|k: int| 0 <= k < words@.len() implies lo <= (
                #[trigger] words@[k]).0 < words@[k].1 <= i by {
                    if k < before.len() {
                        assert(words@[k] == before[k]);
                    }
                }
                assert forall|k: int, p: int|
                    #![trigger words@[k], input@[p]]
                    0 <= k < words@.len() && words@[k].0 <= p < words@[k].1 implies !is_space(
                    input@[p],
                ) by {
                    if k < before.len() {
                        assert(words@[k] == before[k]);
                    }
                }
            }
        }
    }
    words
}

/// The formula that a reader has built so far.
pub struct D4FormatReaderData {
    n_vars: usize,
    nodes: Vec<Node>,
    edges: Vec<Edge>,
}

impl View for D4FormatReaderData {
    type V = Formula;

    closed spec fn view(&self) -> Formula {
        Formula {
            n_vars: self.n_vars as nat,
            nodes: node_models(self.nodes@),
            edges: edge_models(self.edges@),
        }
    }
}

/// Every index that the formula holds names something that exists, and
/// every literal speaks of a known variable; the formula may still be
/// empty.
pub open spec fn indexed(f: Formula) -> bool {
    &&& 2 * f.n_vars <= usize::MAX + 1
    &&& forall|n: int, i: int|
        0 <= n < f.nodes.len() && 0 <= i < f.edge_list(n).len() ==> (#[trigger] f.edge_list(
            n,
        )[i]) < f.edges.len()
    &&& forall|e: int| 0 <= e < f.edges.len() ==> (#[trigger] f.edges[e]).target < f.nodes.len()
    &&& forall|e: int, j: int|
        0 <= e < f.edges.len() && 0 <= j < f.edges[e].propagated.len() ==> (
        #[trigger] f.edges[e].propagated[j]).var() < f.n_vars
}

/// `sort_unstable_by_key` of slices, on the variable index: the literals are
/// put in an order in which the variable indices do not decrease.
#[verifier::external_body]
fn sort_by_var_index(literals: &mut Vec<Literal>)
    ensures
        final(literals)@.to_multiset() == old(literals)@.to_multiset(),
        forall|i: int, j: int|
            0 <= i <= j < final(literals)@.len() ==> (#[trigger] final(literals)@[i]).var() <= (
            #[trigger] final(literals)@[j]).var(),
{
    literals.sort_unstable_by_key(Literal::var_index);
}

/// Whether the literals are in increasing order of variable, each variable
/// once.
pub open spec fn strictly_sorted(literals: Seq<Literal>) -> bool {
    forall|i: int, j: int|
        0 <= i < j < literals.len() ==> (#[trigger] literals[i]).var() < (
        #[trigger] literals[j]).var()
}

/// Whether two literals of the list speak of the same variable with
/// opposite polarities.
pub open spec fn has_clash(literals: Seq<Literal>) -> bool {
    exists|i: int, j: int|
        0 <= i < literals.len() && 0 <= j < literals.len() && (#[trigger] literals[i]).var() == (
        #[trigger] literals[j]).var() && literals[i] != literals[j]
}

impl D4FormatReaderData {
    /// Starts with no variable, no node and no edge.
    pub fn new() -> (r: Self)
        ensures
            r@.n_vars == 0,
            r@.nodes.len() == 0,
            r@.edges.len() == 0,
            indexed(r@),
    {
        Self { n_vars: 0, nodes: Vec::new(), edges: Vec::new() }
    }

    /// Adds the node that the letter `label` stands for, declared with the
    /// 1-based index `index`, which must be the next free one.
    pub fn add_new_node(&mut self, label: u8, index: usize) -> (r: Result<(), Error>)
        requires
            indexed(old(self)@),
            is_label(label),
        ensures
            indexed(final(self)@),
            match with_node(old(self)@, label, index as nat) {
                Ok(f) => r is Ok && final(self)@ == f,
                Err(e) => r == Err::<(), Error>(e) && final(self)@ == old(self)@,
            },
    {
        let n_nodes = self.nodes.len();
        if n_nodes == usize::MAX {
            return Err(Error::WrongNodeIndex { expected: usize::MAX, got: index });
        }
        if index != n_nodes + 1 {
            return Err(Error::WrongNodeIndex { expected: n_nodes + 1, got: index });
        }
        let ghost before = self@;
        match Node::from_label(label) {
            Some(node) => {
                self.nodes.push(node);
                proof {
                    assert(self@.nodes =~= before.nodes.push(node@));
                    assert forall|n: int, i: int|
                        0 <= n < self@.nodes.len() && 0 <= i < self@.edge_list(n).len() implies (
                    #[trigger] self@.edge_list(n)[i]) < self@.edges.len() by {
                        if n < before.nodes.len() {
                            assert(self@.edge_list(n) == before.edge_list(n));
                        }
                    }
                }
                Ok(())
            },
            None => Ok(()),
        }
    }

    /// Adds an edge from the node of 1-based index `source_index` to that
    /// of 1-based index `target_index`, which propagates the literals of
    /// `propagated`, put in increasing order of variable, each literal
    /// once.
    #[verifier::loop_isolation(false)]
    pub fn add_new_edge(
        &mut self,
        source_index: usize,
        target_index: usize,
        propagated: Vec<Literal>,
    ) -> (r: Result<(), Error>)
        requires
            indexed(old(self)@),
        ensures
            indexed(final(self)@),
            final(self)@.nodes.len() == old(self)@.nodes.len(),
            match with_edge(old(self)@, source_index as nat, target_index as nat, propagated@) {
                Ok(f) => r is Ok && final(self)@ == f,
                Err(e) => r == Err::<(), Error>(e),
            },
    {
        let ghost before = self@;
        let mut sorted = propagated;
        sort_by_var_index(&mut sorted);
        proof {
            sorted@.to_multiset_ensures();
            propagated@.to_multiset_ensures();
            assert forall|l: Literal| sorted@.contains(l) <==> propagated@.contains(l) by {
                assert(sorted@.to_multiset().count(l) == propagated@.to_multiset().count(l));
            }
        }
        let mut n_vars = self.n_vars;
        if sorted.len() > 0 {
            let last = sorted[sorted.len() - 1].var_index();
            proof {
                sorted@[sorted@.len() - 1].lemma_of_self();
            }
            if last + 1 > n_vars {
                n_vars = last + 1;
            }
        }
        let mut kept: Vec<Literal> = Vec::new();
        let mut k: usize = 0;
        while k < sorted.len()
            invariant
                k <= sorted.len(),
                strictly_sorted(kept@),
                forall|l: Literal| kept@.contains(l) <==> sorted@.take(k as int).contains(l),
                forall|i: int, j: int|
                    0 <= i <= j < sorted@.len() ==> (#[trigger] sorted@[i]).var() <= (
                    #[trigger] sorted@[j]).var(),
                !has_clash(sorted@.take(k as int)),
                kept@.len() > 0 ==> k > 0 && kept@.last() == sorted@[k - 1],
                kept@.len() == 0 ==> k == 0,
            decreases sorted.len() - k,
        {
            let l = sorted[k];
            let ghost prefix = sorted@.take(k as int);
            let ghost next = sorted@.take(k + 1);
            proof {
                assert(next =~= prefix.push(l));
                assert forall|x: Literal| next.contains(x) <==> (prefix.contains(x) || x == l) by {
                    if prefix.contains(x) {
                        let i = choose|i: int| 0 <= i < prefix.len() && prefix[i] == x;
                        assert(next[i] == x);
                    }
                    if x == l {
                        assert(next[k as int] == x);
                    }
                    if next.contains(x) {
                        let i = choose|i: int| 0 <= i < next.len() && next[i] == x;
                        if i < k {
                            assert(prefix[i] == x);
                        }
                    }
                }
            }
            if kept.len() > 0 && kept[kept.len() - 1].var_index() == l.var_index() {
                if kept[kept.len() - 1] != l {
                    proof {
                        let i = (k - 1) as int;
                        assert(sorted@[i].var() == sorted@[k as int].var() && sorted@[i]
                            != sorted@[k as int]);
                        lemma_clash_carries(sorted@, propagated@, i, k as int);
                    }
                    return Err(Error::VariablePropagatedTwice);
                }
                proof {
                    assert(kept@.contains(l)) by {
                        assert(kept@[kept@.len() - 1] == l);
                    }
                    assert(!has_clash(next)) by {
                        if has_clash(next) {
                            let (i, j) = choose|i: int, j: int|
                                0 <= i < next.len() && 0 <= j < next.len() && (
                                #[trigger] next[i]).var() == (#[trigger] next[j]).var() && next[i]
                                    != next[j];
                            let a = if i == k {
                                k - 1
                            } else {
                                i
                            };
                            let b = if j == k {
                                k - 1
                            } else {
                                j
                            };
                            assert(prefix[a].var() == prefix[b].var() && prefix[a] != prefix[b]);
                        }
                    }
                }
            } else {
                let ghost kept_before = kept@;
                kept.push(l);
                proof {
                    assert forall|x: Literal| kept@.contains(x) <==> next.contains(x) by {
                        if kept_before.contains(x) {
                            let i = choose|i: int| 0 <= i < kept_before.len() && kept_before[i] == x;
                            assert(kept@[i] == x);
                        }
                        if x == l {
                            assert(kept@[kept_before.len() as int] == x);
                        }
                        if kept@.contains(x) {
                            let i = choose|i: int| 0 <= i < kept@.len() && kept@[i] == x;
                            if i < kept_before.len() {
                                assert(kept_before[i] == x);
                            }
                        }
                    }
                    assert forall|i: int, j: int| 0 <= i < j < kept@.len() implies (
                    #[trigger] kept@[i]).var() < (#[trigger] kept@[j]).var() by {
                        if j == kept_before.len() {
                            assert(kept_before.contains(kept_before[i]));
                            assert(prefix.contains(kept_before[i]));
                            let m = choose|m: int| 0 <= m < prefix.len() && prefix[m] == kept_before[i];
                            assert(sorted@[m].var() <= sorted@[k - 1].var());
                            assert(kept_before[i].var() <= kept_before.last().var());
                            assert(sorted@[k - 1].var() <= sorted@[k as int].var());
                        }
                    }
                    assert(!has_clash(next)) by {
                        if has_clash(next) {
                            let (i, j) = choose|i: int, j: int|
                                0 <= i < next.len() && 0 <= j < next.len() && (
                                #[trigger] next[i]).var() == (#[trigger] next[j]).var() && next[i]
                                    != next[j];
                            if i < k && j < k {
                                assert(prefix[i].var() == prefix[j].var() && prefix[i] != prefix[j]);
                            } else if i == k && j == k {
                            } else {
                                let o = if i == k {
                                    j
                                } else {
                                    i
                                };
                                assert(sorted@[o].var() <= sorted@[k - 1].var());
                                assert(sorted@[k - 1].var() <= sorted@[k as int].var());
                                assert(kept_before.len() > 0);
                                assert(kept_before.last().var() == l.var());
                            }
                        }
                    }
                }
            }
            k = k + 1;
        }
        proof {
            assert(sorted@.take(k as int) =~= sorted@);
            assert(!has_clash(propagated@)) by {
                if has_clash(propagated@) {
                    let (i, j) = choose|i: int, j: int|
                        0 <= i < propagated@.len() && 0 <= j < propagated@.len() && (
                        #[trigger] propagated@[i]).var() == (#[trigger] propagated@[j]).var()
                            && propagated@[i] != propagated@[j];
                    assert(propagated@.contains(propagated@[i]));
                    assert(propagated@.contains(propagated@[j]));
                    let a = choose|a: int| 0 <= a < sorted@.len() && sorted@[a] == propagated@[i];
                    let b = choose|b: int| 0 <= b < sorted@.len() && sorted@[b] == propagated@[j];
                    assert(sorted@[a].var() == sorted@[b].var() && sorted@[a] != sorted@[b]);
                }
            }
        }
        let n_nodes = self.nodes.len();
        if source_index == 0 || source_index > n_nodes {
            return Err(Error::WrongSourceIndex { max: n_nodes, got: source_index });
        }
        if target_index == 0 || target_index > n_nodes {
            return Err(Error::WrongTargetIndex { max: n_nodes, got: target_index });
        }
        if source_index == target_index {
            return Err(Error::SourceEqualsTarget);
        }
        let is_leaf = match &self.nodes[source_index - 1] {
            Node::True => true,
            Node::False => true,
            _ => false,
        };
        if is_leaf {
            return Err(Error::EdgeFromLeaf);
        }
        let edge_index = EdgeIndex(self.edges.len());
        let edge = Edge::from_raw_data(NodeIndex(target_index - 1), kept);
        self.n_vars = n_vars;
        self.edges.push(edge);
        let ghost nodes_before = self.nodes@;
        let slice = self.nodes.as_mut_slice();
        let (_, rest) = slice.split_at_mut(source_index - 1);
        match rest.first_mut() {
            Some(node) => {
                let _ = node.add_edge(edge_index);
            },
            None => {},
        }
        proof {
            let s = (source_index - 1) as int;
            assert(self.nodes@.len() == nodes_before.len());
            assert forall|n: int| 0 <= n < nodes_before.len() && n != s implies self.nodes@[n]
                == nodes_before[n] by {}
            assert(self@.edges =~= before.edges.push(edge@));
            assert forall|l: Literal|
                self@.edges.last().propagated.contains(l) <==> propagated@.contains(l) by {}
            assert forall|n: int, i: int|
                0 <= n < self@.nodes.len() && 0 <= i < self@.edge_list(n).len() implies (
            #[trigger] self@.edge_list(n)[i]) < self@.edges.len() by {
                if n != s {
                    assert(self@.edge_list(n) == before.edge_list(n));
                    assert(before.edge_list(n)[i] < before.edges.len());
                } else {
                    if i < before.edge_list(n).len() {
                        assert(before.edge_list(n)[i] < before.edges.len());
                    }
                }
            }
            assert forall|e: int, j: int|
                0 <= e < self@.edges.len() && 0 <= j < self@.edges[e].propagated.len() implies (
            #[trigger] self@.edges[e].propagated[j]).var() < self@.n_vars by {
                if e < before.edges.len() {
                    assert(before.edges[e].propagated[j].var() < before.n_vars);
                } else {
                    let l = kept@[j];
                    assert(kept@.contains(l));
                    let m = choose|m: int| 0 <= m < sorted@.len() && sorted@[m] == l;
                    assert(sorted@[m].var() <= sorted@[sorted@.len() - 1].var());
                }
            }
            assert forall|e: int| 0 <= e < self@.edges.len() implies (
            #[trigger] self@.edges[e]).target < self@.nodes.len() by {
                if e < before.edges.len() {
                    assert(before.edges[e].target < before.nodes.len());
                }
            }
            lemma_sorted_once(propagated@, kept@);
            assert(self@.nodes =~= before.nodes.update(
                s,
                node_with_edge(before.nodes[s], before.edges.len()),
            ));
        }
        Ok(())
    }

    /// Makes the formula out of what was built.
    pub fn finish(self) -> (r: DecisionDNNF)
        ensures
            r@ == self@,
    {
        DecisionDNNF::from_raw_data(self.n_vars, self.nodes, self.edges)
    }

    /// The number of nodes built so far.
    pub fn n_nodes(&self) -> (n: usize)
        ensures
            n == self@.nodes.len(),
    {
        self.nodes.len()
    }
}

/// A clash between two literals of a list is a clash of any list with the
/// same literals.
pub proof fn lemma_clash_carries(a: Seq<Literal>, b: Seq<Literal>, i: int, j: int)
    requires
        0 <= i < a.len(),
        0 <= j < a.len(),
        a[i].var() == a[j].var(),
        a[i] != a[j],
        forall|l: Literal| a.contains(l) <==> b.contains(l),
    ensures
        has_clash(b),
{
    assert(a.contains(a[i]));
    assert(a.contains(a[j]));
    let x = choose|x: int| 0 <= x < b.len() && b[x] == a[i];
    let y = choose|y: int| 0 <= y < b.len() && b[y] == a[j];
    assert(b[x].var() == b[y].var() && b[x] != b[y]);
}

/// Where no index is unmarked, every index is marked.
pub proof fn lemma_no_unseen(seen: Seq<bool>, hi: int)
    requires
        0 <= hi <= seen.len(),
        crate::algorithms::orphan_nodes_and_edges::unseen_indices(seen, hi).len() == 0,
    ensures
        forall|m: int| 0 <= m < hi ==> #[trigger] seen[m],
    decreases hi,
{
    if hi > 0 {
        lemma_no_unseen(seen, hi - 1);
    }
}

/// The first unmarked index is the first index of the list of the unmarked
/// ones.
pub proof fn lemma_first_unseen(seen: Seq<bool>, hi: int)
    requires
        0 <= hi <= seen.len(),
        crate::algorithms::orphan_nodes_and_edges::unseen_indices(seen, hi).len() > 0,
    ensures
        ({
            let first = crate::algorithms::orphan_nodes_and_edges::unseen_indices(seen, hi)[0];
            &&& first < hi
            &&& !seen[first as int]
            &&& forall|m: int| 0 <= m < first ==> #[trigger] seen[m]
        }),
    decreases hi,
{
    if hi > 0 {
        let rest = crate::algorithms::orphan_nodes_and_edges::unseen_indices(seen, hi - 1);
        if rest.len() > 0 {
            lemma_first_unseen(seen, hi - 1);
        } else {
            lemma_no_unseen(seen, hi - 1);
        }
    }
}

/// Checks that the graph has no cycle and that each of its nodes can be
/// reached from the root.
pub fn check_connectivity(ddnnf: &DecisionDNNF) -> (r: Result<(), Error>)
    requires
        ddnnf@.well_indexed(),
    ensures
        r is Ok <==> ddnnf@.is_dag_from_root() && forall|n: int|
            0 <= n < ddnnf@.nodes.len() ==> ddnnf@.reachable(n),
        r is Ok ==> ddnnf@.wf(),
        r == match graph_fault(ddnnf@) {
            Some(e) => Err::<(), Error>(e),
            None => Ok::<(), Error>(()),
        },
        r == Err::<(), Error>(Error::CycleDetected) <==> !ddnnf@.is_dag_from_root(),
        r matches Err(e) ==> e == Error::CycleDetected || (exists|i: int|
            0 <= i < ddnnf@.nodes.len() && e == Error::UnreachableNode((i + 1) as usize)
                && !ddnnf@.reachable(i) && forall|m: int| 0 <= m < i ==> ddnnf@.reachable(m)),
{
    match OrphanFinder::search(ddnnf) {
        Err(e) => Err(e),
        Ok(finder) => {
            let orphans = finder.orphans_nodes();
            let ghost marks = crate::algorithms::orphan_nodes_and_edges::reachable_nodes(ddnnf@);
            if orphans.len() > 0 {
                let first = orphans[0].0;
                let n_nodes = ddnnf.n_nodes();
                proof {
                    lemma_first_unseen(marks, ddnnf@.nodes.len() as int);
                    assert(crate::formula::decision_dnnf::node_numbers(orphans@)[0]
                        == first);
                    assert(!ddnnf@.reachable(first as int));
                    assert(first < n_nodes);
                    assert forall|m: int| 0 <= m < first implies ddnnf@.reachable(m) by {
                        assert(marks[m]);
                    }
                }
                let e = Error::UnreachableNode(first + 1);
                proof {
                    let i = first as int;
                    assert(0 <= i < ddnnf@.nodes.len() && e == Error::UnreachableNode(
                        (i + 1) as usize,
                    ) && !ddnnf@.reachable(i) && forall|m: int|
                        0 <= m < i ==> ddnnf@.reachable(m));
                }
                Err(e)
            } else {
                proof {
                    assert(crate::formula::decision_dnnf::node_numbers(orphans@).len()
                        == 0);
                    lemma_no_unseen(marks, ddnnf@.nodes.len() as int);
                    assert forall|n: int| 0 <= n < ddnnf@.nodes.len() implies ddnnf@.reachable(
                        n,
                    ) by {
                        assert(marks[n]);
                    }
                    ddnnf@.lemma_all_reachable_dag();
                }
                Ok(())
            }
        },
    }
}

/// A structure used to read the output of the d4 compiler.
///
/// The reader checks that the text follows the format. Unless told not to,
/// it also checks that every node can be reached from the root and that the
/// graph has no cycle. The root is the first node of the text, with index 1.
/// The reader does not check that the conjunction nodes are decomposable
/// nor that the disjunction nodes are deterministic.
pub struct Reader {
    do_not_check: bool,
}

impl Default for Reader {
    /// A reader that makes its checks.
    fn default() -> (r: Self)
        ensures
            !r.checks_disabled(),
    {
        Reader { do_not_check: false }
    }
}

impl Reader {
    /// Whether the reader leaves out the checks on the graph.
    pub closed spec fn checks_disabled(&self) -> bool {
        self.do_not_check
    }

    /// Sets whether the reader leaves out the checks on the graph.
    pub fn set_do_not_check(&mut self, do_not_check: bool)
        ensures
            final(self).checks_disabled() == do_not_check,
    {
        self.do_not_check = do_not_check;
    }

    /// Reads a formula from the text `input` and returns it.
    ///
    /// An error is returned where the text does not follow the d4 format or,
    /// unless the checks are left out, where a node cannot be reached from
    /// the root or the graph has a cycle.
    pub fn read(&self, input: &[u8]) -> (r: Result<DecisionDNNF, ReadError>)
        ensures
            match parse(input@, !self.checks_disabled()) {
                Ok(f) => r matches Ok(ddnnf) && ddnnf@ == f,
                Err(e) => r matches Err(got) && got.line_index == e.line_index && alike(
                    got.cause,
                    e.cause,
                ),
            },
            r matches Ok(ddnnf) ==> ddnnf@.well_indexed() && (!self.checks_disabled()
                ==> ddnnf@.wf() && forall|n: int|
                0 <= n < ddnnf@.nodes.len() ==> ddnnf@.reachable(n)),
    {
        let mut reader_data = D4FormatReaderData::new();
        let mut pos: usize = 0;
        let mut line_index: usize = 0;
        let ghost start = reader_data@;
        proof {
            assert(start.nodes =~= Seq::empty());
            assert(start.edges =~= Seq::empty());
            assert(start == (Formula { n_vars: 0, nodes: Seq::empty(), edges: Seq::empty() }));
        }
        while pos < input.len()
            invariant
                pos <= input@.len(),
                line_index <= pos,
                indexed(reader_data@),
                start == (Formula { n_vars: 0, nodes: Seq::empty(), edges: Seq::empty() }),
                after_lines(start, input@, 0, 0) == after_lines(
                    reader_data@,
                    input@,
                    pos as int,
                    line_index as nat,
                ),
            decreases input.len() - pos,
        {
            let end = Self::find_line_end(input, pos);
            let ghost before = reader_data@;
            let ghost step = after_line(before, words_of(input@, pos as int, end as int));
            match Self::read_line(&mut reader_data, input, pos, end) {
                Err(cause) => {
                    proof {
                        assert(step is Err);
                        assert(after_lines(before, input@, pos as int, line_index as nat) == Err::<
                            Formula,
                            ReadError,
                        >(ReadError { line_index: Some(line_index), cause: step->Err_0 }));
                    }
                    return Err(ReadError { line_index: Some(line_index), cause });
                },
                Ok(()) => {},
            }
            pos = if end < input.len() {
                end + 1
            } else {
                end
            };
            line_index = line_index + 1;
        }
        assert(after_lines(start, input@, 0, 0) == Ok::<Formula, ReadError>(reader_data@));
        if reader_data.n_nodes() == 0 {
            return Err(ReadError { line_index: None, cause: Error::EmptyFormula });
        }
        let ddnnf = reader_data.finish();
        if !self.do_not_check {
            match check_connectivity(&ddnnf) {
                Err(cause) => {
                    return Err(ReadError { line_index: None, cause });
                },
                Ok(()) => {},
            }
        }
        Ok(ddnnf)
    }

    /// Finds the end of the line that starts at `pos`.
    fn find_line_end(input: &[u8], pos: usize) -> (end: usize)
        requires
            pos <= input@.len(),
        ensures
            pos <= end <= input@.len(),
            end == line_end(input@, pos as int),
    {
        let mut end: usize = pos;
        while end < input.len() && input[end] != 0x0a
            invariant
                pos <= end <= input@.len(),
                line_end(input@, pos as int) == line_end(input@, end as int),
            decreases input.len() - end,
        {
            end = end + 1;
        }
        end
    }

    /// Reads the line that stands from `pos` to `end`.
    fn read_line(reader_data: &mut D4FormatReaderData, input: &[u8], pos: usize, end: usize) -> (r:
        Result<(), Error>)
        requires
            indexed(old(reader_data)@),
            pos <= end <= input@.len(),
        ensures
            indexed(final(reader_data)@),
            match after_line(old(reader_data)@, words_of(input@, pos as int, end as int)) {
                Ok(f) => r is Ok && final(reader_data)@ == f,
                Err(e) => r matches Err(got) && alike(got, e),
            },
    {
        let words = split_words(input, pos, end);
        let ghost texts = word_texts(input@, words@);
        proof {
            lemma_words_of(input@, pos as int, end as int, words@);
        }
        if words.len() == 0 {
            return Ok(());
        }
        let first = vstd::slice::slice_subrange(input, words[0].0, words[0].1);
        assert(first@ == texts[0]);
        let is_node = first.len() == 1 && (first[0] == 0x61 || first[0] == 0x6f || first[0] == 0x74
            || first[0] == 0x66);
        if is_node {
            Self::add_new_node(reader_data, input, &words)
        } else if parse_usize(first).is_ok() {
            Self::add_new_edge(reader_data, input, &words)
        } else {
            let word = vstd::slice::slice_to_vec(first);
            assert(word_vec(texts[0])@ == texts[0]) by {
                assert(word@ == texts[0]);
            }
            Err(Error::UnexpectedFirstWord(word))
        }
    }

    /// Reads the words of a node line and adds the node.
    fn add_new_node(
        reader_data: &mut D4FormatReaderData,
        input: &[u8],
        words: &Vec<(usize, usize)>,
    ) -> (r: Result<(), Error>)
        requires
            indexed(old(reader_data)@),
            words@.len() > 0,
            forall|k: int|
                0 <= k < words@.len() ==> (#[trigger] words@[k]).0 < words@[k].1 <= input@.len(),
            words@[0].1 == words@[0].0 + 1,
            is_label(input@[words@[0].0 as int]),
        ensures
            indexed(final(reader_data)@),
            match node_line(old(reader_data)@, word_texts(input@, words@)) {
                Ok(f) => r is Ok && final(reader_data)@ == f,
                Err(e) => r matches Err(got) && alike(got, e),
            },
    {
        let ghost texts = word_texts(input@, words@);
        let label = input[words[0].0];
        assert(texts[0][0] == label);
        if words.len() < 2 {
            return Err(Error::MissingNodeIndex);
        }
        assert(texts[1] == input@.subrange(words@[1].0 as int, words@[1].1 as int));
        let index = match parse_usize(vstd::slice::slice_subrange(input, words[1].0, words[1].1)) {
            Ok(index) => index,
            Err(e) => {
                return Err(e);
            },
        };
        if words.len() < 3 {
            return Err(Error::ExpectedZero);
        }
        assert(texts[2] == input@.subrange(words@[2].0 as int, words@[2].1 as int));
        if !is_zero_word(input, words[2].0, words[2].1) {
            return Err(Error::ExpectedZero);
        }
        if words.len() > 3 {
            return Err(Error::ContentAfterZero);
        }
        reader_data.add_new_node(label, index)
    }

    /// Reads the words of an edge line and adds the edge.
    #[verifier::loop_isolation(false)]
    fn add_new_edge(
        reader_data: &mut D4FormatReaderData,
        input: &[u8],
        words: &Vec<(usize, usize)>,
    ) -> (r: Result<(), Error>)
        requires
            indexed(old(reader_data)@),
            words@.len() > 0,
            forall|k: int|
                0 <= k < words@.len() ==> (#[trigger] words@[k]).0 < words@[k].1 <= input@.len(),
        ensures
            indexed(final(reader_data)@),
            final(reader_data)@.nodes.len() == old(reader_data)@.nodes.len(),
            match edge_line(old(reader_data)@, word_texts(input@, words@)) {
                Ok(f) => r is Ok && final(reader_data)@ == f,
                Err(e) => r matches Err(got) && alike(got, e),
            },
    {
        let ghost texts = word_texts(input@, words@);
        assert(texts[0] == input@.subrange(words@[0].0 as int, words@[0].1 as int));
        let source_index = match parse_usize(
            vstd::slice::slice_subrange(input, words[0].0, words[0].1),
        ) {
            Ok(index) => index,
            Err(e) => {
                return Err(e);
            },
        };
        if words.len() < 2 {
            return Err(Error::MissingTargetIndex);
        }
        assert(texts[1] == input@.subrange(words@[1].0 as int, words@[1].1 as int));
        let target_index = match parse_usize(
            vstd::slice::slice_subrange(input, words[1].0, words[1].1),
        ) {
            Ok(index) => index,
            Err(e) => {
                return Err(e);
            },
        };
        let mut got_zero = false;
        let mut propagated: Vec<Literal> = Vec::new();
        let mut k: usize = 2;
        while k < words.len()
            invariant
                2 <= k <= words@.len(),
                scan_literals(texts, 2, false, Seq::empty()) == scan_literals(
                    texts,
                    k as int,
                    got_zero,
                    propagated@,
                ),
            decreases words.len() - k,
        {
            let word = vstd::slice::slice_subrange(input, words[k].0, words[k].1);
            assert(texts[k as int] == word@);
            if got_zero {
                return Err(Error::ContentAfterZero);
            } else if is_zero_word(input, words[k].0, words[k].1) {
                got_zero = true;
            } else {
                match parse_isize(word) {
                    Some(value) => {
                        propagated.push(Literal::from(value));
                    },
                    None => {
                        let text = vstd::slice::slice_to_vec(word);
                        assert(word_vec(texts[k as int])@ == texts[k as int]) by {
                            assert(text@ == texts[k as int]);
                        }
                        return Err(Error::ExpectedLiteral(text));
                    },
                }
            }
            k = k + 1;
        }
        if !got_zero {
            return Err(Error::MissingFinalZero);
        }
        reader_data.add_new_edge(source_index, target_index, propagated)
    }
}

impl DecisionDNNFReader for Reader {
    /// The reader leaves out its checks exactly where it was told to.
    open spec fn told(&self, do_not_check: bool) -> bool {
        self.checks_disabled() == do_not_check
    }

    /// The formula that the text writes in the d4 format, or the error
    /// that it holds, with its line.
    open spec fn reads(&self, input: Seq<u8>, r: Result<DecisionDNNF, ReadError>) -> bool {
        match parse(input, !self.checks_disabled()) {
            Ok(f) => r matches Ok(ddnnf) && ddnnf@ == f,
            Err(e) => r matches Err(got) && got.line_index == e.line_index && alike(
                got.cause,
                e.cause,
            ),
        }
    }

    fn set_do_not_check(&mut self, do_not_check: bool) {
        Reader::set_do_not_check(self, do_not_check)
    }

    fn read(&self, input: &[u8]) -> (r: Result<DecisionDNNF, ReadError>) {
        Reader::read(self, input)
    }
}

/// Tells whether the word of `input` from `start` to `end` is `0`.
pub fn is_zero_word(input: &[u8], start: usize, end: usize) -> (r: bool)
    requires
        start < end <= input@.len(),
    ensures
        r == (end == start + 1 && input@[start as int] == 0x30),
{
    end - start == 1 && input[start] == 0x30
}

} // verus!
