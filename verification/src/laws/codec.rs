//! Reading what was written in the binary format gives the formula back.

use crate::error::Error;
use crate::formula::decision_dnnf::DecisionDNNF;
use crate::formula::decision_dnnf::EdgeModel;
use crate::formula::decision_dnnf::Formula;
use crate::formula::decision_dnnf::NodeModel;
use crate::formula::literal::Literal;
use crate::io::binary_format::byte_of;
use crate::io::binary_format::decode;
use crate::io::binary_format::decode_each_edge;
use crate::io::binary_format::decode_each_node;
use crate::io::binary_format::decode_each_number;
use crate::io::binary_format::decode_edge;
use crate::io::binary_format::decode_node;
use crate::io::binary_format::decode_number;
use crate::io::binary_format::decode_numbers;
use crate::io::binary_format::encode;
use crate::io::binary_format::encode_each_edge;
use crate::io::binary_format::encode_each_node;
use crate::io::binary_format::encode_each_number;
use crate::io::binary_format::encode_edge;
use crate::io::binary_format::encode_node;
use crate::io::binary_format::encode_number;
use crate::io::binary_format::encode_numbers;
use crate::io::binary_format::literal_codes;
use crate::io::binary_format::literals_of_codes;
use crate::io::binary_format::number_at;
use crate::io::binary_format::number_of;
use vstd::prelude::*;

verus! {

/// Whether the bytes `part` stand at the place `pos` of `s`.
pub open spec fn holds_at(s: Seq<u8>, pos: int, part: Seq<u8>) -> bool {
    0 <= pos && pos + part.len() <= s.len() && s.subrange(pos, pos + part.len()) == part
}

/// Whether the numbers of a list fit in a machine word, and the length of
/// the list too.
pub open spec fn numbers_fit(numbers: Seq<nat>) -> bool {
    numbers.len() <= usize::MAX && forall|i: int|
        0 <= i < numbers.len() ==> #[trigger] numbers[i] <= usize::MAX
}

/// Whether the numbers of a node fit in a machine word.
pub open spec fn node_fits(node: NodeModel) -> bool {
    numbers_fit(node.edge_list())
}

/// Whether the numbers of an edge fit in a machine word.
pub open spec fn edge_fits(edge: EdgeModel) -> bool {
    edge.target <= usize::MAX && edge.propagated.len() <= usize::MAX
}

/// Whether the numbers of a formula fit in a machine word, as those of a
/// formula in memory do.
pub open spec fn fits(f: Formula) -> bool {
    &&& f.n_vars <= usize::MAX
    &&& f.nodes.len() <= usize::MAX
    &&& f.edges.len() <= usize::MAX
    &&& forall|n: int| 0 <= n < f.nodes.len() ==> node_fits(#[trigger] f.nodes[n])
    &&& forall|e: int| 0 <= e < f.edges.len() ==> edge_fits(#[trigger] f.edges[e])
}

/// Where two parts stand one after the other, each of them stands at its
/// place.
pub proof fn lemma_holds_both(s: Seq<u8>, pos: int, a: Seq<u8>, b: Seq<u8>)
    requires
        holds_at(s, pos, a + b),
    ensures
        holds_at(s, pos, a),
        holds_at(s, pos + a.len(), b),
{
    let whole = s.subrange(pos, pos + (a + b).len());
    assert forall|i: int| 0 <= i < a.len() implies s.subrange(pos, pos + a.len())[i] == a[i] by {
        assert(whole[i] == (a + b)[i]);
    }
    assert(s.subrange(pos, pos + a.len()) =~= a);
    assert forall|i: int| 0 <= i < b.len() implies s.subrange(
        pos + a.len(),
        pos + a.len() + b.len(),
    )[i] == b[i] by {
        assert(whole[a.len() + i] == (a + b)[a.len() + i]);
    }
    assert(s.subrange(pos + a.len(), pos + a.len() + b.len()) =~= b);
}

/// The bytes of a number write this number.
pub proof fn lemma_bytes_number(v: u64)
    ensures
        number_of(
            byte_of(v, 7),
            byte_of(v, 6),
            byte_of(v, 5),
            byte_of(v, 4),
            byte_of(v, 3),
            byte_of(v, 2),
            byte_of(v, 1),
            byte_of(v, 0),
        ) == v,
{
    assert(((((v >> 56) & 0xff) as u8 as u64) << 56) | ((((v >> 48) & 0xff) as u8 as u64) << 48) | (
    (((v >> 40) & 0xff) as u8 as u64) << 40) | ((((v >> 32) & 0xff) as u8 as u64) << 32) | ((((v
        >> 24) & 0xff) as u8 as u64) << 24) | ((((v >> 16) & 0xff) as u8 as u64) << 16) | ((((v
        >> 8) & 0xff) as u8 as u64) << 8) | (((v >> 0) & 0xff) as u8 as u64) == v) by (bit_vector);
}

/// A number that stands at a place is read there.
pub proof fn lemma_number(s: Seq<u8>, pos: int, n: nat)
    requires
        n <= usize::MAX,
        holds_at(s, pos, encode_number(n)),
    ensures
        decode_number(s, pos) == Ok::<(nat, int), Error>((n, pos + 8)),
{
    let part = s.subrange(pos, pos + 8);
    assert(part[0] == s[pos] && part[1] == s[pos + 1] && part[2] == s[pos + 2] && part[3] == s[pos
        + 3] && part[4] == s[pos + 4] && part[5] == s[pos + 5] && part[6] == s[pos + 6] && part[7]
        == s[pos + 7]);
    lemma_bytes_number(n as u64);
    assert(number_at(s, pos) == n as u64);
}

/// The bytes of a list of numbers are those of the first, then those of the
/// others.
pub proof fn lemma_each_number_front(numbers: Seq<nat>)
    requires
        numbers.len() > 0,
    ensures
        encode_each_number(numbers) == encode_number(numbers[0]) + encode_each_number(
            numbers.subrange(1, numbers.len() as int),
        ),
    decreases numbers.len(),
{
    let rest = numbers.subrange(1, numbers.len() as int);
    if numbers.len() == 1 {
        assert(numbers.drop_last() =~= Seq::<nat>::empty());
        assert(encode_each_number(numbers.drop_last()) =~= Seq::<u8>::empty());
        assert(encode_each_number(rest) =~= Seq::<u8>::empty());
        assert(encode_each_number(numbers) =~= encode_number(numbers[0]));
        assert(encode_number(numbers[0]) + Seq::<u8>::empty() =~= encode_number(numbers[0]));
    } else {
        let front = numbers.drop_last();
        lemma_each_number_front(front);
        assert(front.subrange(1, front.len() as int) =~= rest.drop_last());
        assert(rest.last() == numbers.last());
        assert(encode_each_number(numbers) =~= encode_number(numbers[0]) + (encode_each_number(
            rest.drop_last(),
        ) + encode_number(rest.last())));
    }
}

/// The numbers that stand at a place are read there, one after the other.
pub proof fn lemma_each_number(s: Seq<u8>, pos: int, numbers: Seq<nat>, found: Seq<nat>)
    requires
        numbers_fit(numbers),
        holds_at(s, pos, encode_each_number(numbers)),
    ensures
        decode_each_number(s, pos, numbers.len(), found) == Ok::<(Seq<nat>, int), Error>(
            (found + numbers, pos + encode_each_number(numbers).len()),
        ),
    decreases numbers.len(),
{
    if numbers.len() == 0 {
        assert(found + numbers =~= found);
    } else {
        let rest = numbers.subrange(1, numbers.len() as int);
        lemma_each_number_front(numbers);
        lemma_holds_both(s, pos, encode_number(numbers[0]), encode_each_number(rest));
        lemma_number(s, pos, numbers[0]);
        assert(numbers_fit(rest)) by {
            assert forall|i: int| 0 <= i < rest.len() implies #[trigger] rest[i] <= usize::MAX by {
                assert(rest[i] == numbers[i + 1]);
            }
        }
        lemma_each_number(s, pos + 8, rest, found.push(numbers[0]));
        assert(found.push(numbers[0]) + rest =~= found + numbers);
    }
}

/// A list of numbers that stands at a place is read there.
pub proof fn lemma_numbers(s: Seq<u8>, pos: int, numbers: Seq<nat>)
    requires
        numbers_fit(numbers),
        holds_at(s, pos, encode_numbers(numbers)),
    ensures
        decode_numbers(s, pos) == Ok::<(Seq<nat>, int), Error>(
            (numbers, pos + encode_numbers(numbers).len()),
        ),
{
    lemma_holds_both(s, pos, encode_number(numbers.len()), encode_each_number(numbers));
    lemma_number(s, pos, numbers.len());
    lemma_each_number(s, pos + 8, numbers, Seq::empty());
    assert(Seq::<nat>::empty() + numbers =~= numbers);
}

/// A node that stands at a place is read there.
pub proof fn lemma_node(s: Seq<u8>, pos: int, node: NodeModel)
    requires
        node_fits(node),
        holds_at(s, pos, encode_node(node)),
    ensures
        decode_node(s, pos) == Ok::<(NodeModel, int), Error>(
            (node, pos + encode_node(node).len()),
        ),
{
    let part = s.subrange(pos, pos + encode_node(node).len());
    assert(part[0] == s[pos]);
    match node {
        NodeModel::And(es) => {
            lemma_holds_both(s, pos, seq![0x00u8], encode_numbers(es));
            lemma_numbers(s, pos + 1, es);
        },
        NodeModel::Or(es) => {
            lemma_holds_both(s, pos, seq![0x01u8], encode_numbers(es));
            lemma_numbers(s, pos + 1, es);
        },
        _ => {},
    }
}

/// The bytes of a list of nodes are those of the first, then those of the
/// others.
pub proof fn lemma_each_node_front(nodes: Seq<NodeModel>)
    requires
        nodes.len() > 0,
    ensures
        encode_each_node(nodes) == encode_node(nodes[0]) + encode_each_node(
            nodes.subrange(1, nodes.len() as int),
        ),
    decreases nodes.len(),
{
    let rest = nodes.subrange(1, nodes.len() as int);
    if nodes.len() == 1 {
        assert(nodes.drop_last() =~= Seq::<NodeModel>::empty());
        assert(encode_each_node(nodes.drop_last()) =~= Seq::<u8>::empty());
        assert(encode_each_node(rest) =~= Seq::<u8>::empty());
        assert(encode_each_node(nodes) =~= encode_node(nodes[0]));
        assert(encode_node(nodes[0]) + Seq::<u8>::empty() =~= encode_node(nodes[0]));
    } else {
        let front = nodes.drop_last();
        lemma_each_node_front(front);
        assert(front.subrange(1, front.len() as int) =~= rest.drop_last());
        assert(rest.last() == nodes.last());
        assert(encode_each_node(nodes) =~= encode_node(nodes[0]) + (encode_each_node(
            rest.drop_last(),
        ) + encode_node(rest.last())));
    }
}

/// The nodes that stand at a place are read there, one after the other.
pub proof fn lemma_each_node(s: Seq<u8>, pos: int, nodes: Seq<NodeModel>, found: Seq<NodeModel>)
    requires
        forall|n: int| 0 <= n < nodes.len() ==> node_fits(#[trigger] nodes[n]),
        holds_at(s, pos, encode_each_node(nodes)),
    ensures
        decode_each_node(s, pos, nodes.len(), found) == Ok::<(Seq<NodeModel>, int), Error>(
            (found + nodes, pos + encode_each_node(nodes).len()),
        ),
    decreases nodes.len(),
{
    if nodes.len() == 0 {
        assert(found + nodes =~= found);
    } else {
        let rest = nodes.subrange(1, nodes.len() as int);
        lemma_each_node_front(nodes);
        lemma_holds_both(s, pos, encode_node(nodes[0]), encode_each_node(rest));
        lemma_node(s, pos, nodes[0]);
        assert forall|n: int| 0 <= n < rest.len() implies node_fits(#[trigger] rest[n]) by {
            assert(rest[n] == nodes[n + 1]);
        }
        lemma_each_node(s, pos + encode_node(nodes[0]).len(), rest, found.push(nodes[0]));
        assert(found.push(nodes[0]) + rest =~= found + nodes);
    }
}

/// An edge that stands at a place is read there.
pub proof fn lemma_edge(s: Seq<u8>, pos: int, edge: EdgeModel)
    requires
        edge_fits(edge),
        holds_at(s, pos, encode_edge(edge)),
    ensures
        decode_edge(s, pos) == Ok::<(EdgeModel, int), Error>(
            (edge, pos + encode_edge(edge).len()),
        ),
{
    let codes = literal_codes(edge.propagated);
    lemma_holds_both(s, pos, encode_number(edge.target), encode_numbers(codes));
    lemma_number(s, pos, edge.target);
    assert(numbers_fit(codes)) by {
        assert forall|i: int| 0 <= i < codes.len() implies #[trigger] codes[i] <= usize::MAX by {
            edge.propagated[i].lemma_code();
        }
    }
    lemma_numbers(s, pos + 8, codes);
    assert(literals_of_codes(codes) =~= edge.propagated) by {
        assert forall|i: int| 0 <= i < codes.len() implies literals_of_codes(codes)[i]
            == edge.propagated[i] by {
            let l = edge.propagated[i];
            l.lemma_code();
            Literal::lemma_from_code(l.code());
            Literal::lemma_code_injective(Literal::from_code(l.code()), l);
        }
    }
}

/// The bytes of a list of edges are those of the first, then those of the
/// others.
pub proof fn lemma_each_edge_front(edges: Seq<EdgeModel>)
    requires
        edges.len() > 0,
    ensures
        encode_each_edge(edges) == encode_edge(edges[0]) + encode_each_edge(
            edges.subrange(1, edges.len() as int),
        ),
    decreases edges.len(),
{
    let rest = edges.subrange(1, edges.len() as int);
    if edges.len() == 1 {
        assert(edges.drop_last() =~= Seq::<EdgeModel>::empty());
        assert(encode_each_edge(edges.drop_last()) =~= Seq::<u8>::empty());
        assert(encode_each_edge(rest) =~= Seq::<u8>::empty());
        assert(encode_each_edge(edges) =~= encode_edge(edges[0]));
        assert(encode_edge(edges[0]) + Seq::<u8>::empty() =~= encode_edge(edges[0]));
    } else {
        let front = edges.drop_last();
        lemma_each_edge_front(front);
        assert(front.subrange(1, front.len() as int) =~= rest.drop_last());
        assert(rest.last() == edges.last());
        assert(encode_each_edge(edges) =~= encode_edge(edges[0]) + (encode_each_edge(
            rest.drop_last(),
        ) + encode_edge(rest.last())));
    }
}

/// The edges that stand at a place are read there, one after the other.
pub proof fn lemma_each_edge(s: Seq<u8>, pos: int, edges: Seq<EdgeModel>, found: Seq<EdgeModel>)
    requires
        forall|e: int| 0 <= e < edges.len() ==> edge_fits(#[trigger] edges[e]),
        holds_at(s, pos, encode_each_edge(edges)),
    ensures
        decode_each_edge(s, pos, edges.len(), found) == Ok::<(Seq<EdgeModel>, int), Error>(
            (found + edges, pos + encode_each_edge(edges).len()),
        ),
    decreases edges.len(),
{
    if edges.len() == 0 {
        assert(found + edges =~= found);
    } else {
        let rest = edges.subrange(1, edges.len() as int);
        lemma_each_edge_front(edges);
        lemma_holds_both(s, pos, encode_edge(edges[0]), encode_each_edge(rest));
        lemma_edge(s, pos, edges[0]);
        assert forall|e: int| 0 <= e < rest.len() implies edge_fits(#[trigger] rest[e]) by {
            assert(rest[e] == edges[e + 1]);
        }
        lemma_each_edge(s, pos + encode_edge(edges[0]).len(), rest, found.push(edges[0]));
        assert(found.push(edges[0]) + rest =~= found + edges);
    }
}

/// The parts of the bytes that write a formula stand one after the other.
pub proof fn lemma_parts(f: Formula, s: Seq<u8>)
    requires
        holds_at(s, 0, encode(f)),
    ensures
        holds_at(s, 0, encode_number(f.n_vars)),
        holds_at(s, 8, encode_number(f.nodes.len())),
        holds_at(s, 16, encode_each_node(f.nodes)),
        holds_at(s, (16 + encode_each_node(f.nodes).len()) as int, encode_number(f.edges.len())),
        holds_at(s, (24 + encode_each_node(f.nodes).len()) as int, encode_each_edge(f.edges)),
{
    let a = encode_number(f.n_vars);
    let b = encode_number(f.nodes.len());
    let c = encode_each_node(f.nodes);
    let d = encode_number(f.edges.len());
    let e = encode_each_edge(f.edges);
    assert(a.len() == 8 && b.len() == 8 && d.len() == 8);
    assert(encode(f) =~= a + (b + (c + (d + e))));
    lemma_holds_both(s, 0, a, b + (c + (d + e)));
    lemma_holds_both(s, 8, b, c + (d + e));
    lemma_holds_both(s, 16, c, d + e);
    lemma_holds_both(s, (16 + c.len()) as int, d, e);
}

/// The parts of a formula that stand one after the other are read as the
/// formula.
pub proof fn lemma_whole(f: Formula, s: Seq<u8>)
    requires
        fits(f),
        holds_at(s, 0, encode_number(f.n_vars)),
        holds_at(s, 8, encode_number(f.nodes.len())),
        holds_at(s, 16, encode_each_node(f.nodes)),
        holds_at(s, (16 + encode_each_node(f.nodes).len()) as int, encode_number(f.edges.len())),
        holds_at(s, (24 + encode_each_node(f.nodes).len()) as int, encode_each_edge(f.edges)),
    ensures
        decode(s) == Ok::<Formula, Error>(f),
{
    let c = encode_each_node(f.nodes);
    lemma_number(s, 0, f.n_vars);
    lemma_number(s, 8, f.nodes.len());
    lemma_each_node(s, 16, f.nodes, Seq::empty());
    lemma_number(s, (16 + c.len()) as int, f.edges.len());
    lemma_each_edge(s, (24 + c.len()) as int, f.edges, Seq::empty());
    assert(Seq::<NodeModel>::empty() + f.nodes =~= f.nodes);
    assert(Seq::<EdgeModel>::empty() + f.edges =~= f.edges);
}

/// Reading gives back what was written: the bytes that write a formula
/// whose numbers fit in a machine word, followed by any bytes, are read as
/// this formula.
pub proof fn law_read_gives_back_what_was_written(f: Formula, rest: Seq<u8>)
    requires
        fits(f),
    ensures
        decode(encode(f) + rest) == Ok::<Formula, Error>(f),
{
    let s = encode(f) + rest;
    lemma_starts_with(encode(f), rest);
    lemma_parts(f, s);
    lemma_whole(f, s);
}

/// Reading gives back a formula in memory: the bytes that write it,
/// followed by any bytes, are read as this formula.
pub proof fn law_formula_is_read_back(ddnnf: &DecisionDNNF, rest: Seq<u8>)
    ensures
        decode(encode(ddnnf@) + rest) == Ok::<Formula, Error>(ddnnf@),
{
    ddnnf.lemma_fits();
    law_read_gives_back_what_was_written(ddnnf@, rest);
}

/// Bytes followed by others stand at the start of the whole.
pub proof fn lemma_starts_with(part: Seq<u8>, rest: Seq<u8>)
    ensures
        holds_at(part + rest, 0, part),
{
    assert((part + rest).subrange(0, part.len() as int) =~= part);
}

} // verus!
