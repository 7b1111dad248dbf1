//! The four node shapes of the trie and their mapping to and from codec
//! values.

use vstd::prelude::*;
use crate::nibbles::{hex_prefix, hex_prefix_decode, hex_prefix_encode, hex_prefix_unpack, is_nibbles};
use crate::rlp::{copy_slice, decoding, RlpDecodable, RlpEncodable, RlpItem, Rlpable};

verus! {

/// A reference at or above this length is a digest; below it, the node's
/// own encoding.
pub const INLINE_LIMIT: usize = 32;

/// A node of the trie. Paths are nibble sequences; a reference is the empty
/// sequence for a blank subtree, a node's encoding when that is shorter than
/// `INLINE_LIMIT`, and otherwise the digest of that encoding.
#[derive(PartialEq, Eq, Debug, Clone)]
pub enum Node {
    Blank,
    Leaf { path: Vec<u8>, value: Vec<u8> },
    Extension { path: Vec<u8>, child: Vec<u8> },
    Branch { children: Vec<Vec<u8>>, value: Option<Vec<u8>> },
}

/// The mathematical value of a node.
pub enum NodeModel {
    Blank,
    Leaf(Seq<u8>, Seq<u8>),
    Extension(Seq<u8>, Seq<u8>),
    Branch(Seq<Seq<u8>>, Option<Seq<u8>>),
}

pub open spec fn opt_view(v: Option<Vec<u8>>) -> Option<Seq<u8>> {
    match v {
        None => None,
        Some(b) => Some(b@),
    }
}

impl View for Node {
    type V = NodeModel;

    open spec fn view(&self) -> NodeModel {
        match self {
            Node::Blank => NodeModel::Blank,
            Node::Leaf { path, value } => NodeModel::Leaf(path@, value@),
            Node::Extension { path, child } => NodeModel::Extension(path@, child@),
            Node::Branch { children, value } => NodeModel::Branch(
                children@.map_values(|c: Vec<u8>| c@),
                opt_view(*value),
            ),
        }
    }
}

/// The shape that this library writes and reads: nibble paths, references
/// no longer than a digest, sixteen children, and no empty branch value (a
/// branch writes an absent value as empty bytes).
pub open spec fn well_formed(n: NodeModel) -> bool {
    match n {
        NodeModel::Blank => true,
        NodeModel::Leaf(p, _) => is_nibbles(p),
        NodeModel::Extension(p, c) => is_nibbles(p) && c.len() <= INLINE_LIMIT,
        NodeModel::Branch(cs, v) => cs.len() == 16 && (forall|i: int|
            0 <= i < 16 ==> (#[trigger] cs[i]).len() <= INLINE_LIMIT) && match v {
            None => true,
            Some(b) => b.len() > 0,
        },
    }
}

/// The codec value of a branch's value slot.
pub open spec fn value_slot(v: Option<Seq<u8>>) -> RlpItem {
    match v {
        None => RlpItem::Bytes(seq![]),
        Some(b) => RlpItem::Bytes(b),
    }
}

/// The codec value that a node is stored as.
pub open spec fn node_item(n: NodeModel) -> RlpItem {
    match n {
        NodeModel::Blank => RlpItem::Bytes(seq![]),
        NodeModel::Leaf(p, v) => RlpItem::List(
            seq![RlpItem::Bytes(hex_prefix(p, true)), RlpItem::Bytes(v)],
        ),
        NodeModel::Extension(p, c) => RlpItem::List(
            seq![RlpItem::Bytes(hex_prefix(p, false)), RlpItem::Bytes(c)],
        ),
        NodeModel::Branch(cs, v) => RlpItem::List(
            cs.map_values(|c: Seq<u8>| RlpItem::Bytes(c)).push(value_slot(v)),
        ),
    }
}

/// A codec value is a byte string no longer than a digest.
pub open spec fn is_ref_item(x: RlpItem) -> bool {
    x is Bytes && x->Bytes_0.len() <= INLINE_LIMIT
}

/// The node that a codec value stands for, if it has one of the four shapes.
pub open spec fn node_of_item(x: RlpItem) -> Option<NodeModel> {
    match x {
        RlpItem::Bytes(b) => if b.len() == 0 {
            Some(NodeModel::Blank)
        } else {
            None
        },
        RlpItem::List(items) => if items.len() == 2 {
            if items[0] is Bytes && items[1] is Bytes {
                match hex_prefix_decode(items[0]->Bytes_0) {
                    None => None,
                    Some((p, leaf)) => if leaf {
                        Some(NodeModel::Leaf(p, items[1]->Bytes_0))
                    } else if items[1]->Bytes_0.len() <= INLINE_LIMIT {
                        Some(NodeModel::Extension(p, items[1]->Bytes_0))
                    } else {
                        None
                    },
                }
            } else {
                None
            }
        } else if items.len() == 17 {
            if (forall|i: int| 0 <= i < 16 ==> is_ref_item(#[trigger] items[i])) && items[16] is Bytes {
                let v = items[16]->Bytes_0;
                Some(
                    NodeModel::Branch(
                        items.take(16).map_values(|x: RlpItem| x->Bytes_0),
                        if v.len() == 0 {
                            None
                        } else {
                            Some(v)
                        },
                    ),
                )
            } else {
                None
            }
        } else {
            None
        },
    }
}

/// Reading back the codec value of a well-formed node gives the node.
pub proof fn lemma_node_item_round_trip(n: NodeModel)
    requires
        well_formed(n),
    ensures
        node_of_item(node_item(n)) == Some(n),
{
    match n {
        NodeModel::Blank => {},
        NodeModel::Leaf(p, v) => {
            crate::nibbles::lemma_hex_prefix_round_trip(p, true);
        },
        NodeModel::Extension(p, c) => {
            crate::nibbles::lemma_hex_prefix_round_trip(p, false);
        },
        NodeModel::Branch(cs, v) => {
            let items = cs.map_values(|c: Seq<u8>| RlpItem::Bytes(c)).push(value_slot(v));
            assert forall|i: int| 0 <= i < 16 implies is_ref_item(#[trigger] items[i]) by {
                assert(items[i] == RlpItem::Bytes(cs[i]));
            }
            assert(items.take(16).map_values(|x: RlpItem| x->Bytes_0) =~= cs);
        },
    }
}

impl Node {
    /// A blank subtree or a leaf: nothing below it.
    pub fn is_terminal(&self) -> (r: bool)
        ensures
            r == (self@ is Blank || self@ is Leaf),
    {
        match self {
            Node::Blank | Node::Leaf { .. } => true,
            Node::Extension { .. } | Node::Branch { .. } => false,
        }
    }

    /// The codec value of this node.
    pub fn to_rlp(&self) -> (r: RlpEncodable)
        requires
            well_formed(self@),
        ensures
            r@ == node_item(self@),
    {
        match self {
            Node::Blank => RlpEncodable::Binary(Vec::new()),
            Node::Leaf { path, value } => {
                let hp = hex_prefix_encode(path, 0, true);
                assert(path@.subrange(0, path@.len() as int) == path@);
                let a = RlpEncodable::Binary(hp);
                let b = RlpEncodable::Binary(copy_slice(value, 0, value.len()));
                proof {
                    crate::rlp::lemma_view_of(a);
                    crate::rlp::lemma_view_of(b);
                }
                let ghost want = seq![a@, b@];
                let mut items: Vec<RlpEncodable> = Vec::new();
                items.push(a);
                items.push(b);
                let r = RlpEncodable::List(items);
                proof {
                    crate::rlp::lemma_item_views_of(items@);
                    assert(items@.len() == 2);
                    assert(crate::rlp::item_views(items@)[0] == items@[0]@);
                    assert(items@[0]@ == want[0]);
                    assert(crate::rlp::item_views(items@) =~= want);
                }
                r
            },
            Node::Extension { path, child } => {
                let hp = hex_prefix_encode(path, 0, false);
                assert(path@.subrange(0, path@.len() as int) == path@);
                let a = RlpEncodable::Binary(hp);
                let b = RlpEncodable::Binary(copy_slice(child, 0, child.len()));
                proof {
                    crate::rlp::lemma_view_of(a);
                    crate::rlp::lemma_view_of(b);
                }
                let ghost want = seq![a@, b@];
                let mut items: Vec<RlpEncodable> = Vec::new();
                items.push(a);
                items.push(b);
                let r = RlpEncodable::List(items);
                proof {
                    crate::rlp::lemma_item_views_of(items@);
                    assert(crate::rlp::item_views(items@)[0] == items@[0]@);
                    assert(crate::rlp::item_views(items@)[1] == items@[1]@);
                    assert(crate::rlp::item_views(items@) =~= want);
                }
                r
            },
            Node::Branch { children, value } => {
                let ghost cs = children@.map_values(|c: Vec<u8>| c@);
                let mut items: Vec<RlpEncodable> = Vec::new();
                let mut i: usize = 0;
                while i < 16
                    invariant
                        i <= 16,
                        children.len() == 16,
                        cs == children@.map_values(|c: Vec<u8>| c@),
                        items.len() == i,
                        forall|j: int| 0 <= j < i ==> (#[trigger] items@[j])@ == RlpItem::Bytes(cs[j]),
                    decreases 16 - i,
                {
                    items.push(RlpEncodable::Binary(copy_slice(&children[i], 0, children[i].len())));
                    i = i + 1;
                }
                let slot = match value {
                    None => Vec::new(),
                    Some(v) => copy_slice(v, 0, v.len()),
                };
                items.push(RlpEncodable::Binary(slot));
                let r = RlpEncodable::List(items);
                proof {
                    crate::rlp::lemma_item_views_of(items@);
                    let want = cs.map_values(|c: Seq<u8>| RlpItem::Bytes(c)).push(
                        value_slot(opt_view(*value)),
                    );
                    assert forall|j: int| 0 <= j < 17 implies crate::rlp::item_views(items@)[j]
                        == want[j] by {
                        assert(crate::rlp::item_views(items@)[j] == items@[j]@);
                    }
                    assert(crate::rlp::item_views(items@) =~= want);
                }
                r
            },
        }
    }

    /// The node that a codec value stands for; `None` if it has none of the
    /// four shapes.
    pub fn from_rlp(x: RlpEncodable) -> (r: Option<Node>)
        ensures
            match r {
                None => node_of_item(x@) is None,
                Some(n) => node_of_item(x@) == Some(n@),
            },
    {
        proof {
            crate::rlp::lemma_view_of(x);
        }
        let ghost xv = x@;
        match x {
            RlpEncodable::Binary(b) => if b.len() == 0 {
                Some(Node::Blank)
            } else {
                None
            },
            RlpEncodable::List(items) => {
                proof {
                    crate::rlp::lemma_item_views_of(items@);
                }
                let ghost views = crate::rlp::item_views(items@);
                assert(xv == RlpItem::List(views));
                if items.len() == 2 {
                    let mut items = items;
                    let second = items.pop().unwrap();
                    let first = items.pop().unwrap();
                    match (first, second) {
                        (RlpEncodable::Binary(hp), RlpEncodable::Binary(v)) => {
                            match hex_prefix_unpack(&hp) {
                                None => None,
                                Some((p, leaf)) => if leaf {
                                    Some(Node::Leaf { path: p, value: v })
                                } else if v.len() <= INLINE_LIMIT {
                                    Some(Node::Extension { path: p, child: v })
                                } else {
                                    None
                                },
                            }
                        },
                        _ => None,
                    }
                } else if items.len() == 17 {
                    let mut children: Vec<Vec<u8>> = Vec::new();
                    let mut i: usize = 0;
                    while i < 16
                        invariant
                            i <= 16,
                            items.len() == 17,
                            xv == RlpItem::List(views),
                            xv == x@,
                            views == crate::rlp::item_views(items@),
                            views.len() == 17,
                            forall|j: int| 0 <= j < 17 ==> views[j] == (#[trigger] items@[j])@,
                            children.len() == i,
                            forall|j: int| 0 <= j < i ==> is_ref_item(#[trigger] views[j]),
                            forall|j: int|
                                0 <= j < i ==> views[j] == RlpItem::Bytes((#[trigger] children@[j])@),
                        decreases 16 - i,
                    {
                        proof {
                            crate::rlp::lemma_view_of(items@[i as int]);
                        }
                        match &items[i] {
                            RlpEncodable::Binary(c) => {
                                if c.len() > INLINE_LIMIT {
                                    assert(!is_ref_item(views[i as int]));
                                    return None;
                                }
                                children.push(copy_slice(c, 0, c.len()));
                            },
                            RlpEncodable::List(_) => {
                                assert(!is_ref_item(views[i as int]));
                                return None;
                            },
                        }
                        i = i + 1;
                    }
                    match &items[16] {
                        RlpEncodable::Binary(v) => {
                            let value = if v.len() == 0 {
                                None
                            } else {
                                Some(copy_slice(v, 0, v.len()))
                            };
                            let r = Node::Branch { children, value };
                            proof {
                                assert(views.take(16).map_values(|x: RlpItem| x->Bytes_0)
                                    =~= children@.map_values(|c: Vec<u8>| c@));
                            }
                            Some(r)
                        },
                        RlpEncodable::List(_) => None,
                    }
                } else {
                    None
                }
            },
        }
    }
}


impl Rlpable for Node {
    open spec fn encodable(&self) -> bool {
        well_formed(self@)
    }

    /// The codec value of the node.
    fn encode(self) -> (r: RlpEncodable)
        ensures
            r@ == node_item(self@),
    {
        self.to_rlp()
    }

    /// The node that the bytes encode, if they encode one of the four shapes.
    fn decode(from: RlpDecodable) -> (r: Option<Node>)
        ensures
            match r {
                None => !(decoding(from@) matches Ok(x) && node_of_item(x) is Some),
                Some(n) => decoding(from@) matches Ok(x) && node_of_item(x) == Some(n@),
            },
    {
        match from.decode() {
            Err(_) => None,
            Ok(item) => Node::from_rlp(item),
        }
    }
}

} // verus!
