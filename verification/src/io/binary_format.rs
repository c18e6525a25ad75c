//! A binary format for formulas.
//!
//! Numbers are written on 8 bytes, the most significant byte first. A
//! formula is its number of variables, its nodes and its edges. A list is
//! its length followed by its items. A node is a tag (0 for a conjunction, 1
//! for a disjunction, 2 for true, 3 for false) followed, for a conjunction or
//! a disjunction, by the list of the indices of its edges. An edge is the
//! index of its target followed by the list of the numbers that encode its
//! literals.

use crate::error::Error;
use crate::error::ReadError;
use crate::formula::decision_dnnf::edge_numbers;
use crate::formula::decision_dnnf::DecisionDNNF;
use crate::formula::decision_dnnf::Edge;
use crate::formula::decision_dnnf::EdgeIndex;
use crate::formula::decision_dnnf::EdgeModel;
use crate::formula::decision_dnnf::Formula;
use crate::formula::decision_dnnf::Node;
use crate::formula::decision_dnnf::NodeIndex;
use crate::formula::decision_dnnf::NodeModel;
use crate::formula::decision_dnnf::edge_models;
use crate::formula::decision_dnnf::node_models;
use crate::formula::literal::Literal;
use crate::io::DecisionDNNFReader;
use crate::io::DecisionDNNFWriter;
use vstd::prelude::*;

verus! {

/// The tag of a conjunction node.
pub const AND_BYTE: u8 = 0x00;

/// The tag of a disjunction node.
pub const OR_BYTE: u8 = 0x01;

/// The tag of a true node.
pub const TRUE_BYTE: u8 = 0x02;

/// The tag of a false node.
pub const FALSE_BYTE: u8 = 0x03;

/// The byte of rank `k` of the number `v`, where rank 0 is the least
/// significant byte.
pub open spec fn byte_of(v: u64, k: u64) -> u8 {
    ((v >> (8 * k)) & 0xff) as u8
}

/// The 8 bytes that write the number `n`, the most significant first.
pub open spec fn encode_number(n: nat) -> Seq<u8> {
    seq![
        byte_of(n as u64, 7),
        byte_of(n as u64, 6),
        byte_of(n as u64, 5),
        byte_of(n as u64, 4),
        byte_of(n as u64, 3),
        byte_of(n as u64, 2),
        byte_of(n as u64, 1),
        byte_of(n as u64, 0),
    ]
}

/// The number that 8 bytes write, the most significant first.
pub open spec fn number_of(b7: u8, b6: u8, b5: u8, b4: u8, b3: u8, b2: u8, b1: u8, b0: u8) -> u64 {
    ((b7 as u64) << 56) | ((b6 as u64) << 48) | ((b5 as u64) << 40) | ((b4 as u64) << 32) | ((
    b3 as u64) << 24) | ((b2 as u64) << 16) | ((b1 as u64) << 8) | (b0 as u64)
}

/// The bytes of the number that 8 bytes write are these bytes.
pub proof fn lemma_number_bytes(b7: u8, b6: u8, b5: u8, b4: u8, b3: u8, b2: u8, b1: u8, b0: u8)
    ensures
        byte_of(number_of(b7, b6, b5, b4, b3, b2, b1, b0), 7) == b7,
        byte_of(number_of(b7, b6, b5, b4, b3, b2, b1, b0), 6) == b6,
        byte_of(number_of(b7, b6, b5, b4, b3, b2, b1, b0), 5) == b5,
        byte_of(number_of(b7, b6, b5, b4, b3, b2, b1, b0), 4) == b4,
        byte_of(number_of(b7, b6, b5, b4, b3, b2, b1, b0), 3) == b3,
        byte_of(number_of(b7, b6, b5, b4, b3, b2, b1, b0), 2) == b2,
        byte_of(number_of(b7, b6, b5, b4, b3, b2, b1, b0), 1) == b1,
        byte_of(number_of(b7, b6, b5, b4, b3, b2, b1, b0), 0) == b0,
{
    let v = number_of(b7, b6, b5, b4, b3, b2, b1, b0);
    assert((((v >> 56) & 0xff) as u8 == b7) && (((v >> 48) & 0xff) as u8 == b6) && (((v >> 40)
        & 0xff) as u8 == b5) && (((v >> 32) & 0xff) as u8 == b4) && (((v >> 24) & 0xff) as u8 == b3)
        && (((v >> 16) & 0xff) as u8 == b2) && (((v >> 8) & 0xff) as u8 == b1) && (((v >> 0)
        & 0xff) as u8 == b0)) by (bit_vector)
        requires
            v == ((b7 as u64) << 56) | ((b6 as u64) << 48) | ((b5 as u64) << 40) | ((b4 as u64)
                << 32) | ((b3 as u64) << 24) | ((b2 as u64) << 16) | ((b1 as u64) << 8) | (
            b0 as u64),
    ;
}

/// The bytes that write the numbers of `numbers`, one after the other.
pub open spec fn encode_each_number(numbers: Seq<nat>) -> Seq<u8>
    decreases numbers.len(),
{
    if numbers.len() == 0 {
        Seq::empty()
    } else {
        encode_each_number(numbers.drop_last()) + encode_number(numbers.last())
    }
}

/// The bytes that write a list of numbers: its length, then its items.
pub open spec fn encode_numbers(numbers: Seq<nat>) -> Seq<u8> {
    encode_number(numbers.len()) + encode_each_number(numbers)
}

/// The bytes that write a node.
pub open spec fn encode_node(node: NodeModel) -> Seq<u8> {
    match node {
        NodeModel::And(es) => seq![AND_BYTE] + encode_numbers(es),
        NodeModel::Or(es) => seq![OR_BYTE] + encode_numbers(es),
        NodeModel::True => seq![TRUE_BYTE],
        NodeModel::False => seq![FALSE_BYTE],
    }
}

/// The bytes that write the nodes of `nodes`, one after the other.
pub open spec fn encode_each_node(nodes: Seq<NodeModel>) -> Seq<u8>
    decreases nodes.len(),
{
    if nodes.len() == 0 {
        Seq::empty()
    } else {
        encode_each_node(nodes.drop_last()) + encode_node(nodes.last())
    }
}

/// The numbers that encode the literals of a list.
pub open spec fn literal_codes(literals: Seq<Literal>) -> Seq<nat> {
    Seq::new(literals.len(), |i: int| literals[i].code())
}

/// The bytes that write an edge.
pub open spec fn encode_edge(edge: EdgeModel) -> Seq<u8> {
    encode_number(edge.target) + encode_numbers(literal_codes(edge.propagated))
}

/// The bytes that write the edges of `edges`, one after the other.
pub open spec fn encode_each_edge(edges: Seq<EdgeModel>) -> Seq<u8>
    decreases edges.len(),
{
    if edges.len() == 0 {
        Seq::empty()
    } else {
        encode_each_edge(edges.drop_last()) + encode_edge(edges.last())
    }
}

/// The bytes that write a formula.
pub open spec fn encode(f: Formula) -> Seq<u8> {
    encode_number(f.n_vars) + encode_number(f.nodes.len()) + encode_each_node(f.nodes)
        + encode_number(f.edges.len()) + encode_each_edge(f.edges)
}

/// The number that the 8 bytes at the place `pos` of `s` write.
pub open spec fn number_at(s: Seq<u8>, pos: int) -> u64 {
    number_of(
        s[pos],
        s[pos + 1],
        s[pos + 2],
        s[pos + 3],
        s[pos + 4],
        s[pos + 5],
        s[pos + 6],
        s[pos + 7],
    )
}

/// The number written at the place `pos` of `s`, with the place that
/// follows it: fewer than 8 bytes are an error, and so is a number that does
/// not fit in a machine word.
pub open spec fn decode_number(s: Seq<u8>, pos: int) -> Result<(nat, int), Error> {
    if s.len() - pos < 8 {
        Err(Error::TruncatedNumber)
    } else if number_at(s, pos) > usize::MAX {
        Err(Error::NumberTooLarge)
    } else {
        Ok((number_at(s, pos) as nat, pos + 8))
    }
}

/// The `count` numbers written from the place `pos` of `s` on, after the
/// numbers `found`, with the place that follows them.
pub open spec fn decode_each_number(s: Seq<u8>, pos: int, count: nat, found: Seq<nat>) -> Result<
    (Seq<nat>, int),
    Error,
>
    decreases count,
{
    if count == 0 {
        Ok((found, pos))
    } else {
        match decode_number(s, pos) {
            Err(e) => Err(e),
            Ok(number) => decode_each_number(
                s,
                number.1,
                (count - 1) as nat,
                found.push(number.0),
            ),
        }
    }
}

/// The list of numbers written at the place `pos` of `s`, with the place
/// that follows it.
pub open spec fn decode_numbers(s: Seq<u8>, pos: int) -> Result<(Seq<nat>, int), Error> {
    match decode_number(s, pos) {
        Err(e) => Err(e),
        Ok(len) => decode_each_number(s, len.1, len.0, Seq::empty()),
    }
}

/// The node written at the place `pos` of `s`, with the place that follows
/// it.
pub open spec fn decode_node(s: Seq<u8>, pos: int) -> Result<(NodeModel, int), Error> {
    if pos >= s.len() {
        Err(Error::TruncatedNumber)
    } else if s[pos] == AND_BYTE {
        match decode_numbers(s, pos + 1) {
            Err(e) => Err(e),
            Ok(edges) => Ok((NodeModel::And(edges.0), edges.1)),
        }
    } else if s[pos] == OR_BYTE {
        match decode_numbers(s, pos + 1) {
            Err(e) => Err(e),
            Ok(edges) => Ok((NodeModel::Or(edges.0), edges.1)),
        }
    } else if s[pos] == TRUE_BYTE {
        Ok((NodeModel::True, pos + 1))
    } else if s[pos] == FALSE_BYTE {
        Ok((NodeModel::False, pos + 1))
    } else {
        Err(Error::UnknownNodeCode)
    }
}

/// The `count` nodes written from the place `pos` of `s` on, after the
/// nodes `found`, with the place that follows them.
pub open spec fn decode_each_node(s: Seq<u8>, pos: int, count: nat, found: Seq<NodeModel>) -> Result<
    (Seq<NodeModel>, int),
    Error,
>
    decreases count,
{
    if count == 0 {
        Ok((found, pos))
    } else {
        match decode_node(s, pos) {
            Err(e) => Err(e),
            Ok(node) => decode_each_node(s, node.1, (count - 1) as nat, found.push(node.0)),
        }
    }
}

/// The literals that numbers encode.
pub open spec fn literals_of_codes(codes: Seq<nat>) -> Seq<Literal> {
    Seq::new(codes.len(), |i: int| Literal::from_code(codes[i]))
}

/// The edge written at the place `pos` of `s`, with the place that follows
/// it.
pub open spec fn decode_edge(s: Seq<u8>, pos: int) -> Result<(EdgeModel, int), Error> {
    match decode_number(s, pos) {
        Err(e) => Err(e),
        Ok(target) => match decode_numbers(s, target.1) {
            Err(e) => Err(e),
            Ok(codes) => Ok(
                (EdgeModel { target: target.0, propagated: literals_of_codes(codes.0) }, codes.1),
            ),
        },
    }
}

/// The `count` edges written from the place `pos` of `s` on, after the
/// edges `found`, with the place that follows them.
pub open spec fn decode_each_edge(s: Seq<u8>, pos: int, count: nat, found: Seq<EdgeModel>) -> Result<
    (Seq<EdgeModel>, int),
    Error,
>
    decreases count,
{
    if count == 0 {
        Ok((found, pos))
    } else {
        match decode_edge(s, pos) {
            Err(e) => Err(e),
            Ok(edge) => decode_each_edge(s, edge.1, (count - 1) as nat, found.push(edge.0)),
        }
    }
}

/// The formula that the bytes of `s` write: what follows it is not read.
pub open spec fn decode(s: Seq<u8>) -> Result<Formula, Error> {
    match decode_number(s, 0) {
        Err(e) => Err(e),
        Ok(n_vars) => match decode_number(s, n_vars.1) {
            Err(e) => Err(e),
            Ok(n_nodes) => match decode_each_node(s, n_nodes.1, n_nodes.0, Seq::empty()) {
                Err(e) => Err(e),
                Ok(nodes) => match decode_number(s, nodes.1) {
                    Err(e) => Err(e),
                    Ok(n_edges) => match decode_each_edge(s, n_edges.1, n_edges.0, Seq::empty()) {
                        Err(e) => Err(e),
                        Ok(edges) => Ok(
                            Formula { n_vars: n_vars.0, nodes: nodes.0, edges: edges.0 },
                        ),
                    },
                },
            },
        },
    }
}

/// The numbers of a list of machine words.
pub open spec fn as_numbers(items: Seq<usize>) -> Seq<nat> {
    Seq::new(items.len(), |i: int| items[i] as nat)
}

/// Adds to `out` the bytes that write the number `n`.
pub fn write_usize(out: &mut Vec<u8>, n: usize)
    ensures
        final(out)@ == old(out)@ + encode_number(n as nat),
{
    let v: u64 = n as u64;
    out.push(((v >> 56) & 0xff) as u8);
    out.push(((v >> 48) & 0xff) as u8);
    out.push(((v >> 40) & 0xff) as u8);
    out.push(((v >> 32) & 0xff) as u8);
    out.push(((v >> 24) & 0xff) as u8);
    out.push(((v >> 16) & 0xff) as u8);
    out.push(((v >> 8) & 0xff) as u8);
    out.push(((v >> 0) & 0xff) as u8);
    proof {
        assert(out@ =~= old(out)@ + encode_number(n as nat));
    }
}

/// Adds to `out` the bytes that write the list of the edges of a node.
pub fn write_edges(out: &mut Vec<u8>, edges: &[EdgeIndex])
    ensures
        final(out)@ == old(out)@ + encode_numbers(edge_numbers(edges@)),
{
    write_usize(out, edges.len());
    let ghost start = out@;
    let ghost numbers = edge_numbers(edges@);
    let mut i: usize = 0;
    proof {
        assert(numbers.take(0) =~= Seq::<nat>::empty());
        assert(out@ =~= start + encode_each_number(numbers.take(0)));
    }
    while i < edges.len()
        invariant
            i <= edges.len(),
            numbers == edge_numbers(edges@),
            out@ == start + encode_each_number(numbers.take(i as int)),
        decreases edges.len() - i,
    {
        let ghost before = out@;
        write_usize(out, edges[i].0);
        proof {
            assert(numbers.take(i + 1).drop_last() =~= numbers.take(i as int));
            assert(numbers.take(i + 1).last() == edges@[i as int].0);
            assert(out@ =~= start + encode_each_number(numbers.take(i + 1)));
        }
        i = i + 1;
    }
    proof {
        assert(numbers.take(i as int) =~= numbers);
        assert(out@ =~= old(out)@ + encode_numbers(numbers));
    }
}

/// Adds to `out` the bytes that write the list of the literals of an edge.
pub fn write_literals(out: &mut Vec<u8>, literals: &[Literal])
    ensures
        final(out)@ == old(out)@ + encode_numbers(literal_codes(literals@)),
{
    write_usize(out, literals.len());
    let ghost start = out@;
    let ghost numbers = literal_codes(literals@);
    let mut i: usize = 0;
    proof {
        assert(numbers.take(0) =~= Seq::<nat>::empty());
        assert(out@ =~= start + encode_each_number(numbers.take(0)));
    }
    while i < literals.len()
        invariant
            i <= literals.len(),
            numbers == literal_codes(literals@),
            out@ == start + encode_each_number(numbers.take(i as int)),
        decreases literals.len() - i,
    {
        write_usize(out, literals[i].into_usize());
        proof {
            assert(numbers.take(i + 1).drop_last() =~= numbers.take(i as int));
            assert(numbers.take(i + 1).last() == literals@[i as int].code());
            assert(out@ =~= start + encode_each_number(numbers.take(i + 1)));
        }
        i = i + 1;
    }
    proof {
        assert(numbers.take(i as int) =~= numbers);
        assert(out@ =~= old(out)@ + encode_numbers(numbers));
    }
}

/// A structure used to write a formula in the binary format.
pub struct Writer;

impl Default for Writer {
    fn default() -> (r: Self) {
        Writer
    }
}

impl Writer {
    /// Returns the bytes that write the formula.
    #[verifier::loop_isolation(false)]
    pub fn write(&self, ddnnf: &DecisionDNNF) -> (r: Vec<u8>)
        ensures
            r@ == encode(ddnnf@),
    {
        let ghost f = ddnnf@;
        let mut out: Vec<u8> = Vec::new();
        write_usize(&mut out, ddnnf.n_vars());
        let nodes = ddnnf.nodes();
        write_usize(&mut out, nodes.len());
        let ghost start = out@;
        let mut i: usize = 0;
        proof {
            assert(f.nodes.take(0) =~= Seq::<NodeModel>::empty());
            assert(out@ =~= start + encode_each_node(f.nodes.take(0)));
        }
        while i < nodes.len()
            invariant
                i <= nodes.len(),
                out@ == start + encode_each_node(f.nodes.take(i as int)),
            decreases nodes.len() - i,
        {
            let ghost before = out@;
            match &nodes[i] {
                Node::And(items) => {
                    out.push(AND_BYTE);
                    write_edges(&mut out, items.as_slice());
                    proof {
                        assert(out@ =~= before + encode_node(f.nodes[i as int]));
                    }
                },
                Node::Or(items) => {
                    out.push(OR_BYTE);
                    write_edges(&mut out, items.as_slice());
                    proof {
                        assert(out@ =~= before + encode_node(f.nodes[i as int]));
                    }
                },
                Node::True => {
                    out.push(TRUE_BYTE);
                    proof {
                        assert(out@ =~= before + encode_node(f.nodes[i as int]));
                    }
                },
                Node::False => {
                    out.push(FALSE_BYTE);
                    proof {
                        assert(out@ =~= before + encode_node(f.nodes[i as int]));
                    }
                },
            }
            proof {
                assert(f.nodes.take(i + 1).drop_last() =~= f.nodes.take(i as int));
                assert(f.nodes.take(i + 1).last() == f.nodes[i as int]);
                assert(out@ =~= start + encode_each_node(f.nodes.take(i + 1)));
            }
            i = i + 1;
        }
        proof {
            assert(f.nodes.take(i as int) =~= f.nodes);
        }
        let edges = ddnnf.edges();
        write_usize(&mut out, edges.len());
        let ghost middle = out@;
        let mut e: usize = 0;
        proof {
            assert(f.edges.take(0) =~= Seq::<EdgeModel>::empty());
            assert(out@ =~= middle + encode_each_edge(f.edges.take(0)));
        }
        while e < edges.len()
            invariant
                e <= edges.len(),
                out@ == middle + encode_each_edge(f.edges.take(e as int)),
            decreases edges.len() - e,
        {
            let ghost before = out@;
            write_usize(&mut out, edges[e].target().0);
            write_literals(&mut out, edges[e].propagated());
            proof {
                assert(out@ =~= before + encode_edge(f.edges[e as int]));
                assert(f.edges.take(e + 1).drop_last() =~= f.edges.take(e as int));
                assert(f.edges.take(e + 1).last() == f.edges[e as int]);
                assert(out@ =~= middle + encode_each_edge(f.edges.take(e + 1)));
            }
            e = e + 1;
        }
        proof {
            assert(f.edges.take(e as int) =~= f.edges);
            assert(out@ =~= encode(f));
        }
        out
    }
}

impl DecisionDNNFWriter for Writer {
    /// The bytes that write the formula; the format holds every formula.
    open spec fn writes(&self, f: Formula, r: Result<Vec<u8>, Error>) -> bool {
        r matches Ok(bytes) && bytes@ == encode(f)
    }

    fn write(&self, ddnnf: &DecisionDNNF) -> (r: Result<Vec<u8>, Error>) {
        Ok(Writer::write(self, ddnnf))
    }
}

/// Reads the number written at the position `pos` of `input`, and returns
/// it with the position that follows it.
pub fn read_usize(input: &[u8], pos: usize) -> (r: Result<(usize, usize), Error>)
    requires
        pos <= input@.len(),
    ensures
        r matches Ok(found) ==> found.1 == pos + 8 && found.1 <= input@.len() && input@.subrange(
            pos as int,
            found.1 as int,
        ) == encode_number(found.0 as nat),
        r matches Err(e) ==> e == Error::TruncatedNumber || e == Error::NumberTooLarge,
        r == Err::<(usize, usize), Error>(Error::TruncatedNumber) <==> input@.len() - pos < 8,
        match decode_number(input@, pos as int) {
            Ok(number) => r == Ok::<(usize, usize), Error>(
                (number.0 as usize, number.1 as usize),
            ),
            Err(e) => r == Err::<(usize, usize), Error>(e),
        },
{
    if input.len() - pos < 8 {
        return Err(Error::TruncatedNumber);
    }
    let value: u64 = ((input[pos] as u64) << 56) | ((input[pos + 1] as u64) << 48) | ((input[pos
        + 2] as u64) << 40) | ((input[pos + 3] as u64) << 32) | ((input[pos + 4] as u64) << 24) | ((
    input[pos + 5] as u64) << 16) | ((input[pos + 6] as u64) << 8) | (input[pos + 7] as u64);
    if value > usize::MAX as u64 {
        return Err(Error::NumberTooLarge);
    }
    proof {
        lemma_number_bytes(
            input@[pos as int],
            input@[pos + 1],
            input@[pos + 2],
            input@[pos + 3],
            input@[pos + 4],
            input@[pos + 5],
            input@[pos + 6],
            input@[pos + 7],
        );
        assert(input@.subrange(pos as int, pos + 8) =~= encode_number(value as nat));
    }
    Ok((value as usize, pos + 8))
}

/// Reads the list of numbers written at the position `pos` of `input`, and
/// returns it with the position that follows it.
#[verifier::loop_isolation(false)]
pub fn read_numbers(input: &[u8], pos: usize) -> (r: Result<(Vec<usize>, usize), Error>)
    requires
        pos <= input@.len(),
    ensures
        r matches Ok(found) ==> pos <= found.1 <= input@.len() && input@.subrange(
            pos as int,
            found.1 as int,
        ) == encode_numbers(Seq::new(found.0@.len(), |i: int| found.0@[i] as nat)),
        r matches Err(e) ==> e == Error::TruncatedNumber || e == Error::NumberTooLarge,
        match decode_numbers(input@, pos as int) {
            Ok(numbers) => r matches Ok(found) && as_numbers(found.0@) == numbers.0 && found.1
                == numbers.1,
            Err(e) => r == Err::<(Vec<usize>, usize), Error>(e),
        },
{
    let (len, start) = match read_usize(input, pos) {
        Ok(found) => found,
        Err(e) => {
            return Err(e);
        },
    };
    let mut out: Vec<usize> = Vec::new();
    let mut at: usize = start;
    let mut i: usize = 0;
    proof {
        assert(input@.subrange(start as int, at as int) =~= encode_each_number(
            Seq::new(out@.len(), |i: int| out@[i] as nat),
        ));
    }
    proof {
        assert(as_numbers(out@) =~= Seq::<nat>::empty());
    }
    while i < len
        invariant
            i <= len,
            out@.len() == i,
            start <= at <= input@.len(),
            input@.subrange(start as int, at as int) == encode_each_number(
                Seq::new(out@.len(), |i: int| out@[i] as nat),
            ),
            decode_each_number(input@, start as int, len as nat, Seq::empty())
                == decode_each_number(input@, at as int, (len - i) as nat, as_numbers(out@)),
        decreases len - i,
    {
        let (n, next) = match read_usize(input, at) {
            Ok(found) => found,
            Err(e) => {
                return Err(e);
            },
        };
        let ghost before = Seq::new(out@.len(), |i: int| out@[i] as nat);
        out.push(n);
        proof {
            let after = Seq::new(out@.len(), |i: int| out@[i] as nat);
            assert(as_numbers(out@) =~= before.push(n as nat));
            assert(after.drop_last() =~= before);
            assert(after.last() == n);
            assert(input@.subrange(start as int, next as int) =~= input@.subrange(
                start as int,
                at as int,
            ) + input@.subrange(at as int, next as int));
        }
        at = next;
        i = i + 1;
    }
    proof {
        assert(input@.subrange(pos as int, at as int) =~= input@.subrange(pos as int, start as int)
            + input@.subrange(start as int, at as int));
    }
    Ok((out, at))
}

/// A structure used to read a formula written in the binary format.
pub struct Reader;

impl Default for Reader {
    fn default() -> (r: Self) {
        Reader
    }
}

impl Reader {
    /// Reads a formula from the bytes of `input`: what follows the formula
    /// is not read. Nothing is checked of the graph.
    #[verifier::loop_isolation(false)]
    pub fn read(&self, input: &[u8]) -> (r: Result<DecisionDNNF, ReadError>)
        ensures
            r matches Ok(ddnnf) ==> encode(ddnnf@).len() <= input@.len() && input@.subrange(
                0,
                encode(ddnnf@).len() as int,
            ) == encode(ddnnf@),
            r matches Err(e) ==> e.line_index is None && (e.cause == Error::TruncatedNumber
                || e.cause == Error::NumberTooLarge || e.cause == Error::UnknownNodeCode),
            match decode(input@) {
                Ok(f) => r matches Ok(ddnnf) && ddnnf@ == f,
                Err(cause) => r == Err::<DecisionDNNF, ReadError>(
                    ReadError { line_index: None, cause },
                ),
            },
    {
        match self.read_formula(input) {
            Ok(ddnnf) => Ok(ddnnf),
            Err(cause) => Err(ReadError { line_index: None, cause }),
        }
    }

    /// Reads a formula from the bytes of `input`.
    fn read_formula(&self, input: &[u8]) -> (r: Result<DecisionDNNF, Error>)
        ensures
            r matches Ok(ddnnf) ==> encode(ddnnf@).len() <= input@.len() && input@.subrange(
                0,
                encode(ddnnf@).len() as int,
            ) == encode(ddnnf@),
            r matches Err(e) ==> e == Error::TruncatedNumber || e == Error::NumberTooLarge || e
                == Error::UnknownNodeCode,
            match decode(input@) {
                Ok(f) => r matches Ok(ddnnf) && ddnnf@ == f,
                Err(e) => r == Err::<DecisionDNNF, Error>(e),
            },
    {
        let (n_vars, after_n_vars) = match read_usize(input, 0) {
            Ok(found) => found,
            Err(e) => {
                return Err(e);
            },
        };
        let (nodes, after_nodes) = match read_nodes(input, after_n_vars) {
            Ok(found) => found,
            Err(e) => {
                return Err(e);
            },
        };
        let (edges, after_edges) = match read_edges(input, after_nodes) {
            Ok(found) => found,
            Err(e) => {
                return Err(e);
            },
        };
        let ddnnf = DecisionDNNF::from_raw_data(n_vars, nodes, edges);
        proof {
            let f = ddnnf@;
            let whole = input@.subrange(0, after_edges as int);
            assert(whole =~= input@.subrange(0, after_n_vars as int) + input@.subrange(
                after_n_vars as int,
                after_nodes as int,
            ) + input@.subrange(after_nodes as int, after_edges as int));
            assert(encode(f) =~= encode_number(f.n_vars) + (encode_number(f.nodes.len())
                + encode_each_node(f.nodes)) + (encode_number(f.edges.len()) + encode_each_edge(
                f.edges,
            )));
        }
        Ok(ddnnf)
    }
}

/// Reads the list of nodes written at the position `pos` of `input`, and
/// returns it with the position that follows it.
#[verifier::loop_isolation(false)]
pub fn read_nodes(input: &[u8], pos: usize) -> (r: Result<(Vec<Node>, usize), Error>)
    requires
        pos <= input@.len(),
    ensures
        r matches Ok(found) ==> pos <= found.1 <= input@.len() && input@.subrange(
            pos as int,
            found.1 as int,
        ) == encode_number(found.0@.len()) + encode_each_node(node_models(found.0@)),
        r matches Err(e) ==> e == Error::TruncatedNumber || e == Error::NumberTooLarge || e
            == Error::UnknownNodeCode,
        match decode_number(input@, pos as int) {
            Err(e) => r == Err::<(Vec<Node>, usize), Error>(e),
            Ok(count) => match decode_each_node(input@, count.1, count.0, Seq::empty()) {
                Ok(nodes) => r matches Ok(found) && node_models(found.0@) == nodes.0 && found.1
                    == nodes.1,
                Err(e) => r == Err::<(Vec<Node>, usize), Error>(e),
            },
        },
{
    let (n_nodes, start) = match read_usize(input, pos) {
        Ok(found) => found,
        Err(e) => {
            return Err(e);
        },
    };
    let mut nodes: Vec<Node> = Vec::new();
    let mut at: usize = start;
    let mut i: usize = 0;
    proof {
        assert(node_models(nodes@) =~= Seq::<NodeModel>::empty());
        assert(input@.subrange(start as int, at as int) =~= encode_each_node(node_models(nodes@)));
    }
    while i < n_nodes
        invariant
            i <= n_nodes,
            nodes@.len() == i,
            start <= at <= input@.len(),
            input@.subrange(start as int, at as int) == encode_each_node(node_models(nodes@)),
            decode_each_node(input@, start as int, n_nodes as nat, Seq::empty())
                == decode_each_node(
                input@,
                at as int,
                (n_nodes - i) as nat,
                node_models(nodes@),
            ),
        decreases n_nodes - i,
    {
        let (node, next) = match read_node(input, at) {
            Ok(found) => found,
            Err(e) => {
                return Err(e);
            },
        };
        let ghost before = node_models(nodes@);
        nodes.push(node);
        proof {
            let after = node_models(nodes@);
            assert(after =~= before.push(node@));
            assert(after.drop_last() =~= before);
            assert(input@.subrange(start as int, next as int) =~= input@.subrange(
                start as int,
                at as int,
            ) + input@.subrange(at as int, next as int));
        }
        at = next;
        i = i + 1;
    }
    proof {
        assert(input@.subrange(pos as int, at as int) =~= input@.subrange(pos as int, start as int)
            + input@.subrange(start as int, at as int));
    }
    Ok((nodes, at))
}

/// Reads the node written at the position `pos` of `input`, and returns it
/// with the position that follows it.
pub fn read_node(input: &[u8], pos: usize) -> (r: Result<(Node, usize), Error>)
    requires
        pos <= input@.len(),
    ensures
        r matches Ok(found) ==> pos <= found.1 <= input@.len() && input@.subrange(
            pos as int,
            found.1 as int,
        ) == encode_node(found.0@),
        r matches Err(e) ==> e == Error::TruncatedNumber || e == Error::NumberTooLarge || e
            == Error::UnknownNodeCode,
        match decode_node(input@, pos as int) {
            Ok(node) => r matches Ok(found) && found.0@ == node.0 && found.1 == node.1,
            Err(e) => r == Err::<(Node, usize), Error>(e),
        },
{
    if pos >= input.len() {
        return Err(Error::TruncatedNumber);
    }
    let tag = input[pos];
    if tag == AND_BYTE {
        let (items, end) = match read_numbers(input, pos + 1) {
            Ok(found) => found,
            Err(e) => {
                return Err(e);
            },
        };
        let node = Node::And(to_edge_indices(items));
        proof {
            assert(input@.subrange(pos as int, end as int) =~= seq![tag] + input@.subrange(
                pos + 1,
                end as int,
            ));
        }
        Ok((node, end))
    } else if tag == OR_BYTE {
        let (items, end) = match read_numbers(input, pos + 1) {
            Ok(found) => found,
            Err(e) => {
                return Err(e);
            },
        };
        let node = Node::Or(to_edge_indices(items));
        proof {
            assert(input@.subrange(pos as int, end as int) =~= seq![tag] + input@.subrange(
                pos + 1,
                end as int,
            ));
        }
        Ok((node, end))
    } else if tag == TRUE_BYTE {
        proof {
            assert(input@.subrange(pos as int, pos + 1) =~= seq![tag]);
        }
        Ok((Node::True, pos + 1))
    } else if tag == FALSE_BYTE {
        proof {
            assert(input@.subrange(pos as int, pos + 1) =~= seq![tag]);
        }
        Ok((Node::False, pos + 1))
    } else {
        Err(Error::UnknownNodeCode)
    }
}

/// Reads the edge written at the position `pos` of `input`, and returns it
/// with the position that follows it.
pub fn read_edge(input: &[u8], pos: usize) -> (r: Result<(Edge, usize), Error>)
    requires
        pos <= input@.len(),
    ensures
        r matches Ok(found) ==> pos <= found.1 <= input@.len() && input@.subrange(
            pos as int,
            found.1 as int,
        ) == encode_edge(found.0@),
        r matches Err(e) ==> e == Error::TruncatedNumber || e == Error::NumberTooLarge,
        match decode_edge(input@, pos as int) {
            Ok(edge) => r matches Ok(found) && found.0@ == edge.0 && found.1 == edge.1,
            Err(e) => r == Err::<(Edge, usize), Error>(e),
        },
{
    let (target, after_target) = match read_usize(input, pos) {
        Ok(found) => found,
        Err(e) => {
            return Err(e);
        },
    };
    let (codes, next) = match read_numbers(input, after_target) {
        Ok(found) => found,
        Err(e) => {
            return Err(e);
        },
    };
    let propagated = to_literals(codes);
    let edge = Edge::from_raw_data(NodeIndex(target), propagated);
    proof {
        assert(input@.subrange(pos as int, next as int) =~= input@.subrange(
            pos as int,
            after_target as int,
        ) + input@.subrange(after_target as int, next as int));
    }
    Ok((edge, next))
}

/// Reads the list of edges written at the position `pos` of `input`, and
/// returns it with the position that follows it.
pub fn read_edges(input: &[u8], pos: usize) -> (r: Result<(Vec<Edge>, usize), Error>)
    requires
        pos <= input@.len(),
    ensures
        r matches Ok(found) ==> pos <= found.1 <= input@.len() && input@.subrange(
            pos as int,
            found.1 as int,
        ) == encode_number(found.0@.len()) + encode_each_edge(edge_models(found.0@)),
        r matches Err(e) ==> e == Error::TruncatedNumber || e == Error::NumberTooLarge,
        match decode_number(input@, pos as int) {
            Err(e) => r == Err::<(Vec<Edge>, usize), Error>(e),
            Ok(count) => match decode_each_edge(input@, count.1, count.0, Seq::empty()) {
                Ok(edges) => r matches Ok(found) && edge_models(found.0@) == edges.0 && found.1
                    == edges.1,
                Err(e) => r == Err::<(Vec<Edge>, usize), Error>(e),
            },
        },
{
    let (n_edges, start) = match read_usize(input, pos) {
        Ok(found) => found,
        Err(e) => {
            return Err(e);
        },
    };
    let mut edges: Vec<Edge> = Vec::new();
    let mut at: usize = start;
    let mut e: usize = 0;
    proof {
        assert(edge_models(edges@) =~= Seq::<EdgeModel>::empty());
        assert(input@.subrange(start as int, at as int) =~= encode_each_edge(edge_models(edges@)));
    }
    while e < n_edges
        invariant
            e <= n_edges,
            edges@.len() == e,
            pos <= start <= at <= input@.len(),
            start == pos + 8,
            input@.subrange(pos as int, start as int) == encode_number(n_edges as nat),
            decode_number(input@, pos as int) == Ok::<(nat, int), Error>(
                (n_edges as nat, start as int),
            ),
            input@.subrange(start as int, at as int) == encode_each_edge(edge_models(edges@)),
            decode_each_edge(input@, start as int, n_edges as nat, Seq::empty())
                == decode_each_edge(
                input@,
                at as int,
                (n_edges - e) as nat,
                edge_models(edges@),
            ),
        decreases n_edges - e,
    {
        let (edge, next) = match read_edge(input, at) {
            Ok(found) => found,
            Err(e) => {
                return Err(e);
            },
        };
        let ghost before = edge_models(edges@);
        edges.push(edge);
        proof {
            let after = edge_models(edges@);
            assert(after =~= before.push(edge@));
            assert(after.drop_last() =~= before);
            assert(input@.subrange(start as int, next as int) =~= input@.subrange(
                start as int,
                at as int,
            ) + input@.subrange(at as int, next as int));
        }
        at = next;
        e = e + 1;
    }
    proof {
        assert(input@.subrange(pos as int, at as int) =~= input@.subrange(pos as int, start as int)
            + input@.subrange(start as int, at as int));
    }
    Ok((edges, at))
}

impl DecisionDNNFReader for Reader {
    /// The formula that the bytes write, or the error that they hold,
    /// which belongs to no line.
    open spec fn reads(&self, input: Seq<u8>, r: Result<DecisionDNNF, ReadError>) -> bool {
        match decode(input) {
            Ok(f) => r matches Ok(ddnnf) && ddnnf@ == f,
            Err(cause) => r == Err::<DecisionDNNF, ReadError>(
                ReadError { line_index: None, cause },
            ),
        }
    }

    fn set_do_not_check(&mut self, _do_not_check: bool) {
    }

    fn read(&self, input: &[u8]) -> (r: Result<DecisionDNNF, ReadError>) {
        Reader::read(self, input)
    }
}

/// Returns the edge indices that the numbers of `items` are.
fn to_edge_indices(items: Vec<usize>) -> (r: Vec<EdgeIndex>)
    ensures
        edge_numbers(r@) == as_numbers(items@),
{
    let mut out: Vec<EdgeIndex> = Vec::new();
    let mut i: usize = 0;
    while i < items.len()
        invariant
            i <= items.len(),
            out@.len() == i,
            forall|j: int| 0 <= j < i ==> (#[trigger] out@[j]).0 == items@[j],
        decreases items.len() - i,
    {
        out.push(EdgeIndex(items[i]));
        i = i + 1;
    }
    proof {
        assert(edge_numbers(out@) =~= as_numbers(items@));
    }
    out
}

/// Returns the literals that the numbers of `codes` encode.
fn to_literals(codes: Vec<usize>) -> (r: Vec<Literal>)
    ensures
        literal_codes(r@) == as_numbers(codes@),
        r@ == literals_of_codes(as_numbers(codes@)),
{
    let mut out: Vec<Literal> = Vec::new();
    let mut i: usize = 0;
    while i < codes.len()
        invariant
            i <= codes.len(),
            out@.len() == i,
            forall|j: int| 0 <= j < i ==> (#[trigger] out@[j]).code() == codes@[j],
        decreases codes.len() - i,
    {
        out.push(Literal::from_usize(codes[i]));
        i = i + 1;
    }
    proof {
        assert(literal_codes(out@) =~= as_numbers(codes@));
        assert forall|j: int| 0 <= j < out@.len() implies out@[j] == Literal::from_code(
            codes@[j] as nat,
        ) by {
            Literal::lemma_from_code(codes@[j] as nat);
            Literal::lemma_code_injective(out@[j], Literal::from_code(codes@[j] as nat));
        }
        assert(out@ =~= literals_of_codes(as_numbers(codes@)));
    }
    out
}

} // verus!
