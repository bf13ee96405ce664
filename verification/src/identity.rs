//! The canonical order of nodes.
//!
//! Two nodes are told apart by their identity: file URI, start position, end
//! position, kind and name. Identities are ordered by URI, then start
//! (earlier first), then end (later first, so that an enclosing node comes
//! before what it encloses), then kind, then name.
use vstd::prelude::*;
use vstd::relations::*;

use crate::graph::{kind_lt, kind_rank, Node, NodeKind, Position};
use crate::text::{
    chars_of, chars_order, compare_chars, lemma_chars_order_antisymmetric, lemma_chars_order_equal,
    lemma_chars_order_transitive,
};

verus! {

/// URI, start, end, kind and name of a node.
pub type Identity = (Seq<char>, Position, Position, NodeKind, Seq<char>);

/// The identity of a node.
pub open spec fn node_identity(n: Node) -> Identity {
    (n.location.uri@, n.location.range.start, n.location.range.end, n.kind, n.name@)
}

/// Three-way order of positions: by line, then by character.
pub open spec fn position_order(a: Position, b: Position) -> int {
    if a.line < b.line {
        -1
    } else if a.line > b.line {
        1
    } else if a.character < b.character {
        -1
    } else if a.character > b.character {
        1
    } else {
        0
    }
}

/// Three-way order of kinds (see `kind_lt`).
pub open spec fn kind_order(a: NodeKind, b: NodeKind) -> int {
    if kind_lt(a, b) {
        -1
    } else if kind_lt(b, a) {
        1
    } else {
        0
    }
}

/// Three-way order of identities.
pub open spec fn identity_order(a: Identity, b: Identity) -> int {
    let u = chars_order(a.0, b.0);
    let s = position_order(a.1, b.1);
    let e = position_order(b.2, a.2);
    let k = kind_order(a.3, b.3);
    if u != 0 {
        u
    } else if s != 0 {
        s
    } else if e != 0 {
        e
    } else if k != 0 {
        k
    } else {
        chars_order(a.4, b.4)
    }
}

/// `a` comes no later than `b` in the canonical order.
pub open spec fn identity_leq(a: Identity, b: Identity) -> bool {
    identity_order(a, b) <= 0
}

/// The canonical order as a relation.
pub open spec fn identity_le() -> spec_fn(Identity, Identity) -> bool {
    |a: Identity, b: Identity| identity_leq(a, b)
}

/// Two kinds are in order one way or the other, and in both ways only when
/// they are the same kind.
pub proof fn lemma_kind_order(a: NodeKind, b: NodeKind)
    ensures
        kind_order(a, b) == -kind_order(b, a),
        -1 <= kind_order(a, b) <= 1,
        (kind_order(a, b) == 0) == (a == b),
{
}

/// Kinds are ordered transitively.
pub proof fn lemma_kind_order_transitive(a: NodeKind, b: NodeKind, c: NodeKind)
    requires
        kind_order(a, b) <= 0,
        kind_order(b, c) <= 0,
    ensures
        kind_order(a, c) <= 0,
        kind_order(a, b) < 0 || kind_order(b, c) < 0 ==> kind_order(a, c) < 0,
{
    lemma_kind_order(a, b);
    lemma_kind_order(b, c);
    lemma_kind_order(a, c);
}

/// The order of identities is antisymmetric and three-valued.
pub proof fn lemma_identity_order_antisymmetric(a: Identity, b: Identity)
    ensures
        identity_order(a, b) == -identity_order(b, a),
        -1 <= identity_order(a, b) <= 1,
{
    lemma_chars_order_antisymmetric(a.0, b.0);
    lemma_chars_order_antisymmetric(a.4, b.4);
    lemma_kind_order(a.3, b.3);
}

/// The order of identities is zero exactly on equal identities.
pub proof fn lemma_identity_order_equal(a: Identity, b: Identity)
    ensures
        (identity_order(a, b) == 0) == (a == b),
{
    lemma_chars_order_equal(a.0, b.0);
    lemma_chars_order_equal(a.4, b.4);
    lemma_kind_order(a.3, b.3);
}

/// The order of identities is transitive, strictly where either step is.
pub proof fn lemma_identity_order_transitive(a: Identity, b: Identity, c: Identity)
    requires
        identity_order(a, b) <= 0,
        identity_order(b, c) <= 0,
    ensures
        identity_order(a, c) <= 0,
        identity_order(a, b) < 0 || identity_order(b, c) < 0 ==> identity_order(a, c) < 0,
{
    lemma_identity_order_antisymmetric(a, b);
    lemma_identity_order_antisymmetric(b, c);
    lemma_identity_order_antisymmetric(a, c);
    lemma_chars_order_antisymmetric(a.0, b.0);
    lemma_chars_order_antisymmetric(b.0, c.0);
    lemma_chars_order_antisymmetric(a.0, c.0);
    lemma_chars_order_equal(a.0, b.0);
    lemma_chars_order_equal(b.0, c.0);
    lemma_chars_order_equal(a.0, c.0);
    lemma_chars_order_antisymmetric(a.4, b.4);
    lemma_chars_order_antisymmetric(b.4, c.4);
    lemma_chars_order_equal(a.4, b.4);
    lemma_chars_order_equal(b.4, c.4);
    lemma_kind_order(a.3, b.3);
    lemma_kind_order(b.3, c.3);
    lemma_kind_order(a.3, c.3);
    if chars_order(a.0, b.0) <= 0 && chars_order(b.0, c.0) <= 0 {
        lemma_chars_order_transitive(a.0, b.0, c.0);
    }
    if chars_order(a.4, b.4) <= 0 && chars_order(b.4, c.4) <= 0 {
        lemma_chars_order_transitive(a.4, b.4, c.4);
    }
    if kind_order(a.3, b.3) <= 0 && kind_order(b.3, c.3) <= 0 {
        lemma_kind_order_transitive(a.3, b.3, c.3);
    }
}

/// In one document, an identity that starts earlier comes first.
pub proof fn lemma_earlier_start_first(a: Identity, b: Identity)
    requires
        a.0 == b.0,
        a.1.line < b.1.line || (a.1.line == b.1.line && a.1.character < b.1.character),
    ensures
        identity_order(a, b) < 0,
{
    lemma_chars_order_equal(a.0, b.0);
}

/// In one document and from one start, an identity that ends later (so
/// encloses the other) comes first.
pub proof fn lemma_enclosing_first(a: Identity, b: Identity)
    requires
        a.0 == b.0,
        a.1 == b.1,
        b.2.line < a.2.line || (b.2.line == a.2.line && b.2.character < a.2.character),
    ensures
        identity_order(a, b) < 0,
{
    lemma_chars_order_equal(a.0, b.0);
}

/// The canonical order is a total order.
pub proof fn lemma_identity_total_ordering()
    ensures
        total_ordering(identity_le()),
{
    assert forall|x: Identity| #[trigger] identity_le()(x, x) by {
        lemma_identity_order_equal(x, x);
    }
    assert forall|x: Identity, y: Identity|
        #[trigger] identity_le()(x, y) && #[trigger] identity_le()(y, x) implies x == y by {
        lemma_identity_order_antisymmetric(x, y);
        lemma_identity_order_equal(x, y);
    }
    assert forall|x: Identity, y: Identity, z: Identity|
        #[trigger] identity_le()(x, y) && #[trigger] identity_le()(y, z) implies identity_le()(
        x,
        z,
    ) by {
        lemma_identity_order_transitive(x, y, z);
    }
    assert forall|x: Identity, y: Identity|
        #[trigger] identity_le()(x, y) || #[trigger] identity_le()(y, x) by {
        lemma_identity_order_antisymmetric(x, y);
    }
}

/// An identity held as executable values.
pub struct NodeKey {
    pub uri: Vec<char>,
    pub start: Position,
    pub end: Position,
    pub kind: NodeKind,
    pub name: Vec<char>,
}

/// The identity that a key holds.
pub open spec fn key_identity(k: NodeKey) -> Identity {
    (k.uri@, k.start, k.end, k.kind, k.name@)
}

/// The key of a node.
pub fn node_key(n: &Node) -> (k: NodeKey)
    ensures
        key_identity(k) == node_identity(*n),
{
    NodeKey {
        uri: chars_of(n.location.uri.as_str()),
        start: n.location.range.start,
        end: n.location.range.end,
        kind: n.kind,
        name: chars_of(n.name.as_str()),
    }
}

/// Compares two positions in `position_order`.
pub fn compare_positions(a: Position, b: Position) -> (r: i8)
    ensures
        r as int == position_order(a, b),
{
    if a.line < b.line {
        -1
    } else if a.line > b.line {
        1
    } else if a.character < b.character {
        -1
    } else if a.character > b.character {
        1
    } else {
        0
    }
}

/// The rank of a kind in declaration order (see `kind_rank`).
pub fn rank_of_kind(k: NodeKind) -> (r: u8)
    ensures
        r as int == kind_rank(k),
{
    match k {
        NodeKind::File => 1,
        NodeKind::Module => 2,
        NodeKind::Namespace => 3,
        NodeKind::Package => 4,
        NodeKind::Class => 5,
        NodeKind::Method => 6,
        NodeKind::Property => 7,
        NodeKind::Field => 8,
        NodeKind::Constructor => 9,
        NodeKind::Enum => 10,
        NodeKind::Interface => 11,
        NodeKind::Function => 12,
        NodeKind::Variable => 13,
        NodeKind::Constant => 14,
        NodeKind::String => 15,
        NodeKind::Number => 16,
        NodeKind::Boolean => 17,
        NodeKind::Array => 18,
        NodeKind::Object => 19,
        NodeKind::Key => 20,
        NodeKind::Null => 21,
        NodeKind::EnumMember => 22,
        NodeKind::Struct => 23,
        NodeKind::Event => 24,
        NodeKind::Operator => 25,
        NodeKind::TypeParameter => 26,
        NodeKind::Unknown(_) => 27,
    }
}

/// Compares two kinds in `kind_order`.
pub fn compare_kinds(a: NodeKind, b: NodeKind) -> (r: i8)
    ensures
        r as int == kind_order(a, b),
{
    let x = rank_of_kind(a);
    let y = rank_of_kind(b);
    if x < y {
        -1
    } else if x > y {
        1
    } else {
        match (a, b) {
            (NodeKind::Unknown(p), NodeKind::Unknown(q)) => {
                if p < q {
                    -1
                } else if p > q {
                    1
                } else {
                    0
                }
            },
            _ => 0,
        }
    }
}

/// Compares two keys in the canonical order.
pub fn compare_keys(a: &NodeKey, b: &NodeKey) -> (r: i8)
    ensures
        r as int == identity_order(key_identity(*a), key_identity(*b)),
{
    let u = compare_chars(&a.uri, &b.uri);
    if u != 0 {
        return u;
    }
    let s = compare_positions(a.start, b.start);
    if s != 0 {
        return s;
    }
    let e = compare_positions(b.end, a.end);
    if e != 0 {
        return e;
    }
    let k = compare_kinds(a.kind, b.kind);
    if k != 0 {
        return k;
    }
    compare_chars(&a.name, &b.name)
}

} // verus!
