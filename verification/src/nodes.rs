use vstd::prelude::*;
use crate::position::{PosModel, Position};

verus! {

broadcast use vstd::std_specs::vec::axiom_vec_index_decreases;

/// The mathematical shadow of a parsed value tree: object members as a
/// sequence of key/value pairs with distinct keys, array elements in input
/// order, integers as unbounded values, and a float kept as the literal
/// bytes it was written with.
#[verifier::ext_equal]
pub ghost enum NodeModel {
    Object { pairs: Seq<(Seq<u8>, NodeModel)>, start: PosModel, end: PosModel },
    Array { elems: Seq<NodeModel>, start: PosModel, end: PosModel },
    Str { text: Seq<u8>, start: PosModel, end: PosModel },
    Int { val: int, start: PosModel, end: PosModel },
    Float { literal: Seq<u8>, start: PosModel, end: PosModel },
    Bool { val: bool, start: PosModel, end: PosModel },
    Null { start: PosModel, end: PosModel },
}

/// The members of an object model (empty for any other variant).
pub open spec fn object_pairs(m: NodeModel) -> Seq<(Seq<u8>, NodeModel)> {
    match m {
        NodeModel::Object { pairs, .. } => pairs,
        _ => Seq::empty(),
    }
}

/// The elements of an array model (empty for any other variant).
pub open spec fn array_elems(m: NodeModel) -> Seq<NodeModel> {
    match m {
        NodeModel::Array { elems, .. } => elems,
        _ => Seq::empty(),
    }
}

/// The span a model node covers.
pub open spec fn model_span(m: NodeModel) -> (PosModel, PosModel) {
    match m {
        NodeModel::Object { start, end, .. } => (start, end),
        NodeModel::Array { start, end, .. } => (start, end),
        NodeModel::Str { start, end, .. } => (start, end),
        NodeModel::Int { start, end, .. } => (start, end),
        NodeModel::Float { start, end, .. } => (start, end),
        NodeModel::Bool { start, end, .. } => (start, end),
        NodeModel::Null { start, end, .. } => (start, end),
    }
}

/// One parsed value. Every variant carries the span of exactly the input
/// that built it. Object members keep one entry per key; a float carries
/// the literal bytes it was written with, for the caller to convert, since
/// nothing in the tree computes with its value.
#[derive(Debug, PartialEq)]
pub enum Node {
    ObjectNode { pairs: Vec<(Vec<u8>, Node)>, pos_start: Position, pos_end: Position },
    ArrayNode { array: Vec<Node>, pos_start: Position, pos_end: Position },
    StrNode { string: Vec<u8>, pos_start: Position, pos_end: Position },
    IntNode { value: i128, pos_start: Position, pos_end: Position },
    FloatNode { literal: Vec<u8>, pos_start: Position, pos_end: Position },
    BoolNode { boolean: bool, pos_start: Position, pos_end: Position },
    NullNode { pos_start: Position, pos_end: Position },
}

/// What a value tree means mathematically.
pub open spec fn node_model(n: Node) -> NodeModel
    decreases n,
{
    match n {
        Node::ObjectNode { pairs, pos_start, pos_end } => NodeModel::Object {
            pairs: Seq::new(
                pairs@.len(),
                |i: int|
                    if 0 <= i < pairs@.len() {
                        (pairs@[i].0@, node_model(pairs@[i].1))
                    } else {
                        vstd::pervasive::arbitrary()
                    },
            ),
            start: pos_start@,
            end: pos_end@,
        },
        Node::ArrayNode { array, pos_start, pos_end } => NodeModel::Array {
            elems: Seq::new(
                array@.len(),
                |i: int|
                    if 0 <= i < array@.len() {
                        node_model(array@[i])
                    } else {
                        vstd::pervasive::arbitrary()
                    },
            ),
            start: pos_start@,
            end: pos_end@,
        },
        Node::StrNode { string, pos_start, pos_end } => NodeModel::Str {
            text: string@,
            start: pos_start@,
            end: pos_end@,
        },
        Node::IntNode { value, pos_start, pos_end } => NodeModel::Int {
            val: value as int,
            start: pos_start@,
            end: pos_end@,
        },
        Node::FloatNode { literal, pos_start, pos_end } => NodeModel::Float {
            literal: literal@,
            start: pos_start@,
            end: pos_end@,
        },
        Node::BoolNode { boolean, pos_start, pos_end } => NodeModel::Bool {
            val: boolean,
            start: pos_start@,
            end: pos_end@,
        },
        Node::NullNode { pos_start, pos_end } => NodeModel::Null {
            start: pos_start@,
            end: pos_end@,
        },
    }
}

impl View for Node {
    type V = NodeModel;

    open spec fn view(&self) -> NodeModel {
        node_model(*self)
    }
}

impl Node {
    /// The start and end of the input span this value was built from.
    pub fn get_pos(&self) -> (r: (Position, Position))
        ensures
            r.0@ == model_span(self@).0,
            r.1@ == model_span(self@).1,
    {
        match self {
            Node::ObjectNode { pos_start, pos_end, .. } => (*pos_start, *pos_end),
            Node::ArrayNode { pos_start, pos_end, .. } => (*pos_start, *pos_end),
            Node::StrNode { pos_start, pos_end, .. } => (*pos_start, *pos_end),
            Node::IntNode { pos_start, pos_end, .. } => (*pos_start, *pos_end),
            Node::FloatNode { pos_start, pos_end, .. } => (*pos_start, *pos_end),
            Node::BoolNode { pos_start, pos_end, .. } => (*pos_start, *pos_end),
            Node::NullNode { pos_start, pos_end, .. } => (*pos_start, *pos_end),
        }
    }
}

// ---------------------------------------------------------------------------
// Object members: one entry per key, last write wins.
// ---------------------------------------------------------------------------

/// Insert a key/value pair into a member list: when the key is already
/// present, its value is replaced in place; otherwise the pair goes to the
/// end.
pub open spec fn assoc_set(
    pairs: Seq<(Seq<u8>, NodeModel)>,
    k: Seq<u8>,
    v: NodeModel,
) -> Seq<(Seq<u8>, NodeModel)>
    decreases pairs.len(),
{
    if pairs.len() == 0 {
        seq![(k, v)]
    } else if pairs[0].0 == k {
        seq![(k, v)] + pairs.drop_first()
    } else {
        seq![pairs[0]] + assoc_set(pairs.drop_first(), k, v)
    }
}

/// The member list an object ends up with, given its members in the order
/// they were written: each is inserted in turn, so a repeated key keeps its
/// place and the value written last.
pub open spec fn pairs_fold(ms: Seq<(Seq<u8>, NodeModel)>) -> Seq<(Seq<u8>, NodeModel)>
    decreases ms.len(),
{
    if ms.len() == 0 {
        Seq::empty()
    } else {
        assoc_set(pairs_fold(ms.drop_last()), ms.last().0, ms.last().1)
    }
}

/// The member list of an executable pair vector, seen mathematically.
pub open spec fn pairs_model(pairs: Seq<(Vec<u8>, Node)>) -> Seq<(Seq<u8>, NodeModel)> {
    Seq::new(pairs.len(), |i: int| (pairs[i].0@, node_model(pairs[i].1)))
}

/// The element list of an executable node vector, seen mathematically.
pub open spec fn elems_model(elems: Seq<Node>) -> Seq<NodeModel> {
    Seq::new(elems.len(), |i: int| node_model(elems[i]))
}

/// What an object node means: its member vector, seen mathematically,
/// between its two span ends.
pub proof fn lemma_object_node_model(pairs: Vec<(Vec<u8>, Node)>, ps: Position, pe: Position)
    ensures
        node_model(Node::ObjectNode { pairs, pos_start: ps, pos_end: pe })
            == (NodeModel::Object { pairs: pairs_model(pairs@), start: ps@, end: pe@ }),
{
    let m = node_model(Node::ObjectNode { pairs, pos_start: ps, pos_end: pe });
    assert(object_pairs(m) =~= pairs_model(pairs@));
}

/// What an array node means: its element vector, seen mathematically,
/// between its two span ends.
pub proof fn lemma_array_node_model(array: Vec<Node>, ps: Position, pe: Position)
    ensures
        node_model(Node::ArrayNode { array, pos_start: ps, pos_end: pe })
            == (NodeModel::Array { elems: elems_model(array@), start: ps@, end: pe@ }),
{
    let m = node_model(Node::ArrayNode { array, pos_start: ps, pos_end: pe });
    assert(array_elems(m) =~= elems_model(array@));
}


/// The value the first entry with key `k` carries, if any.
pub open spec fn assoc_find(p: Seq<(Seq<u8>, NodeModel)>, k: Seq<u8>) -> Option<NodeModel>
    decreases p.len(),
{
    if p.len() == 0 {
        None
    } else if p[0].0 == k {
        Some(p[0].1)
    } else {
        assoc_find(p.drop_first(), k)
    }
}

/// How many entries carry key `k`.
pub open spec fn entry_count(p: Seq<(Seq<u8>, NodeModel)>, k: Seq<u8>) -> int
    decreases p.len(),
{
    if p.len() == 0 {
        0
    } else {
        (if p[0].0 == k { 1int } else { 0int }) + entry_count(p.drop_first(), k)
    }
}

/// Whether some written member carries key `k`.
pub open spec fn written(ms: Seq<(Seq<u8>, NodeModel)>, k: Seq<u8>) -> bool
    decreases ms.len(),
{
    if ms.len() == 0 {
        false
    } else {
        ms.last().0 == k || written(ms.drop_last(), k)
    }
}

/// The value of the last written member with key `k`.
pub open spec fn last_value_of(ms: Seq<(Seq<u8>, NodeModel)>, k: Seq<u8>) -> NodeModel
    decreases ms.len(),
{
    if ms.len() == 0 {
        vstd::pervasive::arbitrary()
    } else if ms.last().0 == k {
        ms.last().1
    } else {
        last_value_of(ms.drop_last(), k)
    }
}

proof fn lemma_count_nonneg(p: Seq<(Seq<u8>, NodeModel)>, k: Seq<u8>)
    ensures
        entry_count(p, k) >= 0,
    decreases p.len(),
{
    if p.len() > 0 {
        lemma_count_nonneg(p.drop_first(), k);
    }
}

proof fn lemma_find_after_set(p: Seq<(Seq<u8>, NodeModel)>, k0: Seq<u8>, v0: NodeModel, k: Seq<u8>)
    ensures
        assoc_find(assoc_set(p, k0, v0), k) == if k == k0 {
            Some(v0)
        } else {
            assoc_find(p, k)
        },
    decreases p.len(),
{
    let s = assoc_set(p, k0, v0);
    if p.len() == 0 {
        assert(s == seq![(k0, v0)]);
        assert(s[0] == (k0, v0));
        assert(s.drop_first() =~= p);
        if k != k0 {
            assert(assoc_find(s, k) == assoc_find(p, k));
        }
    } else if p[0].0 == k0 {
        assert(s == seq![(k0, v0)] + p.drop_first());
        assert(s[0] == (k0, v0));
        assert(s.drop_first() =~= p.drop_first());
        if k != k0 {
            assert(assoc_find(s, k) == assoc_find(s.drop_first(), k));
            assert(assoc_find(p, k) == assoc_find(p.drop_first(), k));
        }
    } else {
        lemma_find_after_set(p.drop_first(), k0, v0, k);
        assert(s == seq![p[0]] + assoc_set(p.drop_first(), k0, v0));
        assert(s[0] == p[0]);
        assert(s.drop_first() =~= assoc_set(p.drop_first(), k0, v0));
        if p[0].0 == k {
            assert(assoc_find(s, k) == Some(p[0].1));
            assert(assoc_find(p, k) == Some(p[0].1));
        } else {
            assert(assoc_find(s, k) == assoc_find(assoc_set(p.drop_first(), k0, v0), k));
            assert(assoc_find(p, k) == assoc_find(p.drop_first(), k));
        }
    }
}

proof fn lemma_count_after_set(p: Seq<(Seq<u8>, NodeModel)>, k0: Seq<u8>, v0: NodeModel, k: Seq<u8>)
    requires
        entry_count(p, k0) <= 1,
    ensures
        k == k0 ==> entry_count(assoc_set(p, k0, v0), k) == 1,
        k != k0 ==> entry_count(assoc_set(p, k0, v0), k) == entry_count(p, k),
    decreases p.len(),
{
    let s = assoc_set(p, k0, v0);
    if p.len() == 0 {
        assert(s == seq![(k0, v0)]);
        assert(s[0] == (k0, v0));
        assert(s.drop_first() =~= p);
        assert(entry_count(s, k) == (if k == k0 { 1int } else { 0int }) + entry_count(p, k));
    } else if p[0].0 == k0 {
        assert(s == seq![(k0, v0)] + p.drop_first());
        assert(s[0] == (k0, v0));
        assert(s.drop_first() =~= p.drop_first());
        lemma_count_nonneg(p.drop_first(), k0);
        assert(entry_count(p, k0) == 1 + entry_count(p.drop_first(), k0));
        assert(entry_count(p.drop_first(), k0) == 0);
        if k == k0 {
            assert(entry_count(s, k) == 1 + entry_count(p.drop_first(), k0));
        } else {
            assert(entry_count(s, k) == entry_count(p.drop_first(), k));
            assert(entry_count(p, k) == entry_count(p.drop_first(), k));
        }
    } else {
        assert(entry_count(p, k0) == entry_count(p.drop_first(), k0));
        lemma_count_after_set(p.drop_first(), k0, v0, k);
        assert(s == seq![p[0]] + assoc_set(p.drop_first(), k0, v0));
        assert(s[0] == p[0]);
        assert(s.drop_first() =~= assoc_set(p.drop_first(), k0, v0));
        assert(entry_count(s, k) == (if p[0].0 == k { 1int } else { 0int })
            + entry_count(assoc_set(p.drop_first(), k0, v0), k));
        assert(entry_count(p, k) == (if p[0].0 == k { 1int } else { 0int })
            + entry_count(p.drop_first(), k));
    }
}

/// Law: folding an object's members as written leaves exactly one entry per
/// written key, none for a key never written, and looking a written key up
/// finds the value written last. This is the "last write wins" policy of
/// object parsing, stated for every member list.
pub proof fn lemma_last_write_wins(ms: Seq<(Seq<u8>, NodeModel)>, k: Seq<u8>)
    ensures
        written(ms, k) ==> assoc_find(pairs_fold(ms), k) == Some(last_value_of(ms, k)),
        written(ms, k) ==> entry_count(pairs_fold(ms), k) == 1,
        !written(ms, k) ==> assoc_find(pairs_fold(ms), k) is None,
        !written(ms, k) ==> entry_count(pairs_fold(ms), k) == 0,
    decreases ms.len(),
{
    if ms.len() > 0 {
        let prev = pairs_fold(ms.drop_last());
        let kl = ms.last().0;
        let vl = ms.last().1;
        lemma_last_write_wins(ms.drop_last(), k);
        lemma_last_write_wins(ms.drop_last(), kl);
        lemma_find_after_set(prev, kl, vl, k);
        lemma_count_after_set(prev, kl, vl, k);
    }
}
} // verus!
