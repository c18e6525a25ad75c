//! The d4 format, as a function from a text to the formula that it writes
//! or to the error that it holds.

use crate::algorithms::orphan_nodes_and_edges::reachable_nodes;
use crate::algorithms::orphan_nodes_and_edges::unseen_indices;
use crate::error::Error;
use crate::error::ReadError;
use crate::formula::decision_dnnf::EdgeModel;
use crate::formula::decision_dnnf::Formula;
use crate::formula::decision_dnnf::NodeModel;
use crate::formula::literal::Literal;
use crate::io::d4_format::has_clash;
use crate::io::d4_format::is_word_split;
use crate::io::d4_format::parse_index;
use crate::io::d4_format::parse_signed;
use crate::io::d4_format::strictly_sorted;
use vstd::prelude::*;

verus! {

/// Whether the byte is the letter of a node kind: `a`, `o`, `t` or `f`.
pub open spec fn is_label(b: u8) -> bool {
    b == 0x61 || b == 0x6f || b == 0x74 || b == 0x66
}

/// Whether the word is `0`.
pub open spec fn is_zero(word: Seq<u8>) -> bool {
    word.len() == 1 && word[0] == 0x30
}

/// The node that a letter stands for, with no edge yet.
pub open spec fn node_of(label: u8) -> NodeModel {
    if label == 0x61 {
        NodeModel::And(Seq::empty())
    } else if label == 0x6f {
        NodeModel::Or(Seq::empty())
    } else if label == 0x74 {
        NodeModel::True
    } else {
        NodeModel::False
    }
}

/// A node with one more edge; a leaf takes none.
pub open spec fn node_with_edge(node: NodeModel, e: nat) -> NodeModel {
    match node {
        NodeModel::And(es) => NodeModel::And(es.push(e)),
        NodeModel::Or(es) => NodeModel::Or(es.push(e)),
        _ => node,
    }
}

/// Some vector that holds the bytes of a word.
pub open spec fn word_vec(word: Seq<u8>) -> Vec<u8> {
    choose|v: Vec<u8>| v@ == word
}

/// The words that stand at the places `ranges` of a text.
pub open spec fn word_texts(s: Seq<u8>, ranges: Seq<(usize, usize)>) -> Seq<Seq<u8>> {
    Seq::new(ranges.len(), |k: int| s.subrange(ranges[k].0 as int, ranges[k].1 as int))
}

/// The words of the part of a text from `lo` to `hi`.
pub open spec fn words_of(s: Seq<u8>, lo: int, hi: int) -> Seq<Seq<u8>> {
    word_texts(s, choose|ranges: Seq<(usize, usize)>| is_word_split(s, lo, hi, ranges))
}

/// The length of the line that starts at `pos`: the number of bytes before
/// the next line feed or the end of the text.
pub open spec fn line_len(s: Seq<u8>, pos: int) -> nat
    decreases s.len() - pos,
{
    if pos >= s.len() || s[pos] == 0x0a {
        0
    } else {
        1 + line_len(s, pos + 1)
    }
}

/// The end of the line that starts at `pos`: the place of the next line
/// feed, or the end of the text.
pub open spec fn line_end(s: Seq<u8>, pos: int) -> int {
    pos + line_len(s, pos)
}

/// The literals of a list in increasing order of variable, each once.
pub open spec fn sorted_once(literals: Seq<Literal>) -> Seq<Literal> {
    choose|s: Seq<Literal>|
        strictly_sorted(s) && forall|l: Literal| s.contains(l) <==> literals.contains(l)
}

/// The formula with one more node, declared with the letter `label` and
/// the 1-based index `index`, which must be the next free one.
pub open spec fn with_node(f: Formula, label: u8, index: nat) -> Result<Formula, Error> {
    if index != f.nodes.len() + 1 {
        Err(
            Error::WrongNodeIndex {
                expected: if f.nodes.len() < usize::MAX {
                    (f.nodes.len() + 1) as usize
                } else {
                    usize::MAX
                },
                got: index as usize,
            },
        )
    } else {
        Ok(Formula { nodes: f.nodes.push(node_of(label)), ..f })
    }
}

/// The formula with one more edge, from the node of 1-based index `source`
/// to that of 1-based index `target`, which propagates `literals`. The
/// formula has the variables of the literals; the edge holds them in
/// increasing order of variable, each once.
pub open spec fn with_edge(f: Formula, source: nat, target: nat, literals: Seq<Literal>) -> Result<
    Formula,
    Error,
> {
    let kept = sorted_once(literals);
    if has_clash(literals) {
        Err(Error::VariablePropagatedTwice)
    } else if source == 0 || source > f.nodes.len() {
        Err(Error::WrongSourceIndex { max: f.nodes.len() as usize, got: source as usize })
    } else if target == 0 || target > f.nodes.len() {
        Err(Error::WrongTargetIndex { max: f.nodes.len() as usize, got: target as usize })
    } else if source == target {
        Err(Error::SourceEqualsTarget)
    } else if f.nodes[source - 1] is True || f.nodes[source - 1] is False {
        Err(Error::EdgeFromLeaf)
    } else {
        Ok(
            Formula {
                n_vars: if kept.len() > 0 && kept.last().var() + 1 > f.n_vars {
                    kept.last().var() + 1
                } else {
                    f.n_vars
                },
                nodes: f.nodes.update(
                    source - 1,
                    node_with_edge(f.nodes[source - 1], f.edges.len()),
                ),
                edges: f.edges.push(EdgeModel { target: (target - 1) as nat, propagated: kept }),
            },
        )
    }
}

/// The literals that the words of a line write from the `k`-th word on,
/// after the literals `found`: each word is a literal in DIMACS notation,
/// up to the word `0` that ends the line. `closed` tells that this word has
/// been met.
pub open spec fn scan_literals(
    words: Seq<Seq<u8>>,
    k: int,
    closed: bool,
    found: Seq<Literal>,
) -> Result<Seq<Literal>, Error>
    decreases words.len() - k,
{
    if k >= words.len() {
        if closed {
            Ok(found)
        } else {
            Err(Error::MissingFinalZero)
        }
    } else if closed {
        Err(Error::ContentAfterZero)
    } else if is_zero(words[k]) {
        scan_literals(words, k + 1, true, found)
    } else {
        match parse_signed(words[k]) {
            Some(v) => scan_literals(
                words,
                k + 1,
                false,
                found.push(Literal::from_code(Literal::code_of_dimacs(v))),
            ),
            None => Err(Error::ExpectedLiteral(word_vec(words[k]))),
        }
    }
}

/// The formula after a node line: the letter of the node, its index, and
/// `0`.
pub open spec fn node_line(f: Formula, words: Seq<Seq<u8>>) -> Result<Formula, Error> {
    if words.len() < 2 {
        Err(Error::MissingNodeIndex)
    } else {
        match parse_index(words[1]) {
            Err(e) => Err(e),
            Ok(index) => if words.len() < 3 || !is_zero(words[2]) {
                Err(Error::ExpectedZero)
            } else if words.len() > 3 {
                Err(Error::ContentAfterZero)
            } else {
                with_node(f, words[0][0], index)
            },
        }
    }
}

/// The formula after an edge line: the index of the source, that of the
/// target, the literals, and `0`.
pub open spec fn edge_line(f: Formula, words: Seq<Seq<u8>>) -> Result<Formula, Error> {
    match parse_index(words[0]) {
        Err(e) => Err(e),
        Ok(source) => if words.len() < 2 {
            Err(Error::MissingTargetIndex)
        } else {
            match parse_index(words[1]) {
                Err(e) => Err(e),
                Ok(target) => match scan_literals(words, 2, false, Seq::empty()) {
                    Err(e) => Err(e),
                    Ok(literals) => with_edge(f, source, target, literals),
                },
            }
        },
    }
}

/// The formula after a line, given by its words: a line without a word
/// changes nothing; a line that starts with the letter of a node kind is a
/// node line; one that starts with a number is an edge line.
pub open spec fn after_line(f: Formula, words: Seq<Seq<u8>>) -> Result<Formula, Error> {
    if words.len() == 0 {
        Ok(f)
    } else if words[0].len() == 1 && is_label(words[0][0]) {
        node_line(f, words)
    } else if parse_index(words[0]) is Ok {
        edge_line(f, words)
    } else {
        Err(Error::UnexpectedFirstWord(word_vec(words[0])))
    }
}

/// The formula after the lines of a text from the place `pos` on, where
/// `number` lines stand before it: the first line that holds an error stops
/// the reading, and the error has the number of the line.
pub open spec fn after_lines(f: Formula, s: Seq<u8>, pos: int, number: nat) -> Result<
    Formula,
    ReadError,
>
    decreases s.len() - pos,
{
    if pos < 0 || pos >= s.len() {
        Ok(f)
    } else {
        let end = line_end(s, pos);
        match after_line(f, words_of(s, pos, end)) {
            Err(cause) => Err(ReadError { line_index: Some(number as usize), cause }),
            Ok(g) => after_lines(
                g,
                s,
                if end < s.len() {
                    end + 1
                } else {
                    s.len() as int
                },
                number + 1,
            ),
        }
    }
}

/// What is wrong with the graph of a formula, if anything: a cycle, or
/// else the first node that cannot be reached from the root, named by its
/// 1-based index.
pub open spec fn graph_fault(f: Formula) -> Option<Error> {
    let orphans = unseen_indices(reachable_nodes(f), f.nodes.len() as int);
    if !f.is_dag_from_root() {
        Some(Error::CycleDetected)
    } else if orphans.len() > 0 {
        Some(Error::UnreachableNode((orphans[0] + 1) as usize))
    } else {
        None
    }
}

/// The formula that a text writes in the d4 format. The text is read line
/// by line, from a formula without variable, node or edge. A text that
/// declares no node is refused, and so is, where `checked` is set, a graph
/// with a fault.
pub open spec fn parse(s: Seq<u8>, checked: bool) -> Result<Formula, ReadError> {
    let start = Formula { n_vars: 0, nodes: Seq::empty(), edges: Seq::empty() };
    match after_lines(start, s, 0, 0) {
        Err(e) => Err(e),
        Ok(f) => if f.nodes.len() == 0 {
            Err(ReadError { line_index: None, cause: Error::EmptyFormula })
        } else if checked {
            match graph_fault(f) {
                Some(cause) => Err(ReadError { line_index: None, cause }),
                None => Ok(f),
            }
        } else {
            Ok(f)
        },
    }
}

/// A word of one split of a part of a text is a word of any other split.
pub proof fn lemma_split_member(
    s: Seq<u8>,
    lo: int,
    hi: int,
    a: Seq<(usize, usize)>,
    b: Seq<(usize, usize)>,
    k: int,
) -> (j: int)
    requires
        is_word_split(s, lo, hi, a),
        is_word_split(s, lo, hi, b),
        0 <= k < a.len(),
    ensures
        0 <= j < b.len(),
        b[j] == a[k],
{
    let p = a[k].0 as int;
    assert(!crate::io::d4_format::is_space(s[p])) by {
        assert(a[k].0 <= p < a[k].1);
    }
    let j = choose|j: int| 0 <= j < b.len() && (#[trigger] b[j]).0 <= p < b[j].1;
    if b[j].0 < p {
        assert(!crate::io::d4_format::is_space(s[p - 1])) by {
            assert(b[j].0 <= p - 1 < b[j].1);
        }
        assert(lo < a[k].0);
    }
    if b[j].1 < a[k].1 {
        let e = b[j].1 as int;
        assert(!crate::io::d4_format::is_space(s[e])) by {
            assert(a[k].0 <= e < a[k].1);
        }
        assert(b[j].1 < hi);
    }
    if a[k].1 < b[j].1 {
        let e = a[k].1 as int;
        assert(!crate::io::d4_format::is_space(s[e])) by {
            assert(b[j].0 <= e < b[j].1);
        }
        assert(a[k].1 < hi);
    }
    j
}

/// Two splits of a part of a text agree on their first words.
pub proof fn lemma_split_prefix(
    s: Seq<u8>,
    lo: int,
    hi: int,
    a: Seq<(usize, usize)>,
    b: Seq<(usize, usize)>,
    k: int,
)
    requires
        is_word_split(s, lo, hi, a),
        is_word_split(s, lo, hi, b),
        0 <= k <= a.len(),
    ensures
        k <= b.len(),
        forall|i: int| 0 <= i < k ==> a[i] == b[i],
    decreases k,
{
    if k > 0 {
        lemma_split_prefix(s, lo, hi, a, b, k - 1);
        let j = lemma_split_member(s, lo, hi, a, b, k - 1);
        if j < k - 1 {
            assert(a[j] == b[j]);
            assert(a[j].1 < a[k - 1].0);
        }
        assert(k - 1 < b.len());
        let i = lemma_split_member(s, lo, hi, b, a, k - 1);
        if i < k - 1 {
            assert(a[i] == b[i]);
            assert(b[i].1 < b[k - 1].0);
        }
        if j > k - 1 {
            assert(b[k - 1].1 < b[j].0);
            if i > k - 1 {
                assert(a[k - 1].1 < a[i].0);
            }
        }
    }
}

/// A part of a text has one split into words.
pub proof fn lemma_split_unique(
    s: Seq<u8>,
    lo: int,
    hi: int,
    a: Seq<(usize, usize)>,
    b: Seq<(usize, usize)>,
)
    requires
        is_word_split(s, lo, hi, a),
        is_word_split(s, lo, hi, b),
    ensures
        a == b,
{
    lemma_split_prefix(s, lo, hi, a, b, a.len() as int);
    lemma_split_prefix(s, lo, hi, b, a, b.len() as int);
    assert(a =~= b);
}

/// The words at the places of a split are the words of the part.
pub proof fn lemma_words_of(s: Seq<u8>, lo: int, hi: int, ranges: Seq<(usize, usize)>)
    requires
        is_word_split(s, lo, hi, ranges),
    ensures
        words_of(s, lo, hi) == word_texts(s, ranges),
{
    let chosen = choose|r: Seq<(usize, usize)>| is_word_split(s, lo, hi, r);
    lemma_split_unique(s, lo, hi, chosen, ranges);
}

/// Two lists in increasing order of variable that hold the same literals
/// are one list.
pub proof fn lemma_sorted_unique(a: Seq<Literal>, b: Seq<Literal>)
    requires
        strictly_sorted(a),
        strictly_sorted(b),
        forall|l: Literal| a.contains(l) <==> b.contains(l),
    ensures
        a == b,
    decreases a.len(),
{
    if a.len() == 0 {
        if b.len() > 0 {
            assert(b.contains(b[0]));
        }
        assert(a =~= b);
    } else {
        let x = a.last();
        assert(a.contains(x)) by {
            assert(a[a.len() - 1] == x);
        }
        let j = choose|j: int| 0 <= j < b.len() && b[j] == x;
        let y = b.last();
        assert(b.contains(y)) by {
            assert(b[b.len() - 1] == y);
        }
        let i = choose|i: int| 0 <= i < a.len() && a[i] == y;
        if i < a.len() - 1 {
            assert(a[i].var() < a[a.len() - 1].var());
        }
        if j < b.len() - 1 {
            assert(b[j].var() < b[b.len() - 1].var());
        }
        assert(x == y);
        let a0 = a.drop_last();
        let b0 = b.drop_last();
        assert forall|l: Literal| a0.contains(l) <==> b0.contains(l) by {
            if a0.contains(l) {
                let m = choose|m: int| 0 <= m < a0.len() && a0[m] == l;
                assert(a[m] == l && a[m].var() < a[a.len() - 1].var());
                assert(a.contains(l));
                let n = choose|n: int| 0 <= n < b.len() && b[n] == l;
                assert(n < b.len() - 1);
                assert(b0[n] == l);
            }
            if b0.contains(l) {
                let m = choose|m: int| 0 <= m < b0.len() && b0[m] == l;
                assert(b[m] == l && b[m].var() < b[b.len() - 1].var());
                assert(b.contains(l));
                let n = choose|n: int| 0 <= n < a.len() && a[n] == l;
                assert(n < a.len() - 1);
                assert(a0[n] == l);
            }
        }
        lemma_sorted_unique(a0, b0);
        assert(a =~= a0.push(x));
        assert(b =~= b0.push(y));
    }
}

/// A list in increasing order of variable is the sorted list of any list
/// with the same literals.
pub proof fn lemma_sorted_once(literals: Seq<Literal>, kept: Seq<Literal>)
    requires
        strictly_sorted(kept),
        forall|l: Literal| kept.contains(l) <==> literals.contains(l),
    ensures
        sorted_once(literals) == kept,
{
    lemma_sorted_unique(sorted_once(literals), kept);
}

} // verus!
