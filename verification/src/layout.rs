use vstd::prelude::*;
use crate::bytes::decimal;
use crate::ValueType;
use crate::lexer::{lemma_token_at, token_at, TokenKind};
use crate::tree::{
    elements_from, first_child, locate, locate_among, members_from, rooted_at, value_at, Node,
    MAX_NESTING,
};

verus! {

/// An offset behind the first byte of a value and not behind its last: the
/// end of a container, the offset after the first byte of a leaf.
pub open spec fn extent(node: Node) -> int {
    match node {
        Node::Leaf { pos, .. } => pos + 1,
        Node::Branch { end, .. } => end,
    }
}

/// The offset at which a value begins.
pub open spec fn begins_at(node: Node) -> int {
    match node {
        Node::Leaf { pos, .. } => pos,
        Node::Branch { pos, .. } => pos,
    }
}

/// True for a value that lies at or after `lo` as a value of a text does:
/// a container ends behind its beginning and holds its children one after
/// the other, the first behind its opening bracket; a leaf is of a kind
/// that leaves are of. `room` bounds the
/// nesting: a leaf needs none, a container needs one level more than its
/// children.
pub open spec fn laid_out(node: Node, lo: int, room: int) -> bool
    decreases node, 0nat,
{
    match node {
        Node::Leaf { kind, pos, .. } => lo <= pos && room >= 0 && is_leaf_kind(kind),
        Node::Branch { object, pos, end, children } => {
            &&& lo <= pos < end
            &&& room > 0
            &&& children_laid_out(children, children.len(), pos + 1, room - 1)
            &&& children.len() > 0 ==> extent(children[children.len() - 1].1) <= end
            &&& !object ==> keyed_by_index(children)
        },
    }
}

/// The kinds of value that hold no other value.
pub open spec fn is_leaf_kind(kind: ValueType) -> bool {
    kind == ValueType::String || kind == ValueType::Number || kind == ValueType::Bool || kind
        == ValueType::Null
}

/// True when each child goes by its index, written in decimal digits, as
/// the elements of an array do.
pub open spec fn keyed_by_index(children: Seq<(Seq<u8>, Node)>) -> bool {
    forall|i: int| 0 <= i < children.len() ==> (#[trigger] children[i]).0 == decimal(i as nat)
}

/// True when the first `n` children lie one after the other, the first at
/// or after `lo`.
pub open spec fn children_laid_out(children: Seq<(Seq<u8>, Node)>, n: nat, lo: int, room: int)
    -> bool
    decreases children, n,
{
    if n == 0 {
        true
    } else if n > children.len() {
        false
    } else {
        &&& children_laid_out(children, (n - 1) as nat, lo, room)
        &&& laid_out(
            children[n - 1].1,
            if n == 1 {
                lo
            } else {
                extent(children[n - 2].1)
            },
            room,
        )
    }
}

pub proof fn lemma_children_laid_out_prefix(
    a: Seq<(Seq<u8>, Node)>,
    b: Seq<(Seq<u8>, Node)>,
    n: nat,
    lo: int,
    room: int,
)
    requires
        n <= a.len(),
        n <= b.len(),
        forall|i: int| 0 <= i < n ==> a[i] == b[i],
    ensures
        children_laid_out(a, n, lo, room) == children_laid_out(b, n, lo, room),
    decreases n,
{
    if n > 0 {
        lemma_children_laid_out_prefix(a, b, (n - 1) as nat, lo, room);
    }
}

/// A value that is laid out is laid out with more room and from an earlier
/// offset.
pub proof fn lemma_laid_out_widens(node: Node, lo: int, room: int, lo2: int, room2: int)
    requires
        laid_out(node, lo, room),
        lo2 <= lo,
        room <= room2,
    ensures
        laid_out(node, lo2, room2),
        begins_at(node) < extent(node),
        lo <= begins_at(node),
    decreases node, 0nat,
{
    match node {
        Node::Leaf { .. } => {},
        Node::Branch { pos, children, .. } => {
            lemma_children_widen(children, children.len(), pos + 1, room - 1, room2 - 1);
        },
    }
}

pub proof fn lemma_children_widen(
    children: Seq<(Seq<u8>, Node)>,
    n: nat,
    lo: int,
    room: int,
    room2: int,
)
    requires
        children_laid_out(children, n, lo, room),
        room <= room2,
    ensures
        children_laid_out(children, n, lo, room2),
        n <= children.len(),
    decreases children, n,
{
    if n > 0 {
        lemma_children_widen(children, (n - 1) as nat, lo, room, room2);
        let from = if n == 1 {
            lo
        } else {
            extent(children[n - 2].1)
        };
        lemma_laid_out_widens(children[n - 1].1, from, room, from, room2);
    }
}

/// A value of a text is laid out: it lies in the text at or after the
/// place where it was looked for, and is nested no deeper than the limit.
pub proof fn lemma_value_layout(src: Seq<u8>, pos: int, nest: int)
    requires
        0 <= pos <= src.len(),
        0 <= nest <= MAX_NESTING,
    ensures
        value_at(src, pos, nest) matches Ok((node, end)) ==> {
            &&& laid_out(node, pos, MAX_NESTING - nest)
            &&& extent(node) <= end <= src.len()
            &&& pos < end
        },
    decreases src.len() - pos, 0int,
{
    lemma_token_at(src, pos);
    match token_at(src, pos) {
        Err(_) => {},
        Ok(t) => {
            if nest < MAX_NESTING {
                if t.kind == TokenKind::CurlyOpen {
                    lemma_members_layout(src, t.end, nest + 1, Seq::empty(), t.end);
                } else if t.kind == TokenKind::SquareOpen {
                    lemma_elements_layout(src, t.end, nest + 1, Seq::empty(), t.end);
                }
            }
        },
    }
}

pub proof fn lemma_members_layout(
    src: Seq<u8>,
    pos: int,
    nest: int,
    acc: Seq<(Seq<u8>, Node)>,
    lo: int,
)
    requires
        0 <= lo <= pos <= src.len(),
        0 <= nest <= MAX_NESTING,
        children_laid_out(acc, acc.len(), lo, MAX_NESTING - nest),
        acc.len() > 0 ==> extent(acc[acc.len() - 1].1) <= pos,
    ensures
        members_from(src, pos, nest, acc) matches Ok((children, end)) ==> {
            &&& children_laid_out(children, children.len(), lo, MAX_NESTING - nest)
            &&& children.len() > 0 ==> extent(children[children.len() - 1].1) <= end
            &&& pos < end <= src.len()
        },
    decreases src.len() - pos, 1int,
{
    lemma_token_at(src, pos);
    match token_at(src, pos) {
        Err(_) => {},
        Ok(key) => {
            if key.kind == TokenKind::StringLiteral {
                lemma_token_at(src, key.end);
                match token_at(src, key.end) {
                    Err(_) => {},
                    Ok(colon) => {
                        if colon.kind == TokenKind::Colon {
                            lemma_value_layout(src, colon.end, nest);
                            match value_at(src, colon.end, nest) {
                                Err(_) => {},
                                Ok((node, after)) => {
                                    lemma_token_at(src, after);
                                    let grown = acc.push((key.text, node));
                                    lemma_grown_layout(acc, (key.text, node), lo, MAX_NESTING - nest, colon.end);
                                    match token_at(src, after) {
                                        Err(_) => {},
                                        Ok(next) => {
                                            if next.kind == TokenKind::Comma && pos < next.end
                                                <= src.len() {
                                                lemma_members_layout(src, next.end, nest, grown, lo);
                                            }
                                        },
                                    }
                                },
                            }
                        }
                    },
                }
            }
        },
    }
}

pub proof fn lemma_elements_layout(
    src: Seq<u8>,
    pos: int,
    nest: int,
    acc: Seq<(Seq<u8>, Node)>,
    lo: int,
)
    requires
        0 <= lo <= pos <= src.len(),
        0 <= nest <= MAX_NESTING,
        children_laid_out(acc, acc.len(), lo, MAX_NESTING - nest),
        acc.len() > 0 ==> extent(acc[acc.len() - 1].1) <= pos,
    ensures
        elements_from(src, pos, nest, acc) matches Ok((children, end)) ==> {
            &&& children_laid_out(children, children.len(), lo, MAX_NESTING - nest)
            &&& children.len() > 0 ==> extent(children[children.len() - 1].1) <= end
            &&& pos < end <= src.len()
            &&& keyed_by_index(acc) ==> keyed_by_index(children)
        },
    decreases src.len() - pos, 1int,
{
    lemma_token_at(src, pos);
    if acc.len() == 0 && crate::tree::closes_at(src, pos) {
    } else {
        lemma_value_layout(src, pos, nest);
        match value_at(src, pos, nest) {
            Err(_) => {},
            Ok((node, after)) => {
                lemma_token_at(src, after);
                let grown = acc.push((decimal(acc.len()), node));
                lemma_grown_layout(acc, (decimal(acc.len()), node), lo, MAX_NESTING - nest, pos);
                match token_at(src, after) {
                    Err(_) => {},
                    Ok(next) => {
                        if next.kind == TokenKind::Comma && pos < next.end <= src.len() {
                            lemma_elements_layout(src, next.end, nest, grown, lo);
                        }
                    },
                }
            },
        }
    }
}

/// One more child that lies behind the others keeps the children laid out.
pub proof fn lemma_grown_layout(
    acc: Seq<(Seq<u8>, Node)>,
    child: (Seq<u8>, Node),
    lo: int,
    room: int,
    from: int,
)
    requires
        children_laid_out(acc, acc.len(), lo, room),
        laid_out(child.1, from, room),
        lo <= from,
        acc.len() > 0 ==> extent(acc[acc.len() - 1].1) <= from,
    ensures
        children_laid_out(acc.push(child), acc.len() + 1, lo, room),
{
    let grown = acc.push(child);
    lemma_children_laid_out_prefix(grown, acc, acc.len(), lo, room);
    let before = if acc.len() == 0 {
        lo
    } else {
        extent(grown[acc.len() - 1].1)
    };
    lemma_laid_out_widens(child.1, from, room, before, room);
}

/// A root of a text is laid out, with the room that is left below the
/// nesting of its members where it is an object, below its own where it is
/// not.
pub proof fn lemma_root_layout(src: Seq<u8>, pos: int, nest: int, child_nest: int)
    requires
        0 <= pos <= src.len(),
        0 <= nest <= MAX_NESTING,
        0 <= child_nest <= MAX_NESTING,
    ensures
        rooted_at(src, pos, nest, child_nest) matches Ok((node, end)) ==> {
            &&& pos < end <= src.len()
            &&& extent(node) <= end
            &&& pos <= begins_at(node) < extent(node)
            &&& match node {
                Node::Branch { object: true, pos: at, children, .. } => {
                    &&& children_laid_out(
                        children,
                        children.len(),
                        at + 1,
                        MAX_NESTING - child_nest,
                    )
                    &&& children.len() > 0 ==> extent(children[children.len() - 1].1) <= end
                },
                _ => laid_out(node, pos, MAX_NESTING - nest),
            }
        },
{
    lemma_token_at(src, pos);
    match token_at(src, pos) {
        Err(_) => {},
        Ok(t) => {
            if t.kind == TokenKind::CurlyOpen {
                lemma_members_layout(src, t.end, child_nest, Seq::empty(), t.end);
            } else {
                lemma_value_layout(src, pos, nest);
            }
        },
    }
}


/// True for a value that can be flattened as a root: an object whose
/// members are laid out with `room`, or any other value that is.
pub open spec fn root_laid_out(node: Node, room: int) -> bool {
    match node {
        Node::Branch { object: true, pos, end, children } => {
            &&& 0 <= pos < end
            &&& children_laid_out(children, children.len(), pos + 1, room)
            &&& children.len() > 0 ==> extent(children[children.len() - 1].1) <= end
        },
        _ => laid_out(node, 0, room),
    }
}

/// A value that is laid out can be flattened as a root.
pub proof fn lemma_laid_out_as_root(node: Node, lo: int, room: int)
    requires
        laid_out(node, lo, room),
        0 <= lo,
    ensures
        root_laid_out(node, room),
{
    lemma_laid_out_widens(node, lo, room, 0, room);
    match node {
        Node::Branch { object: true, pos, children, .. } => {
            lemma_children_widen(children, children.len(), pos + 1, room - 1, room);
        },
        _ => {},
    }
}

/// Each of the children that are laid out is laid out, behind the place
/// where the first may begin, and ends no later than the last of them.
pub proof fn lemma_child_layout(children: Seq<(Seq<u8>, Node)>, n: nat, lo: int, room: int, i: int)
    requires
        children_laid_out(children, n, lo, room),
        0 <= i < n,
    ensures
        n <= children.len(),
        laid_out(children[i].1, lo, room),
        extent(children[i].1) <= extent(children[n - 1].1),
    decreases n,
{
    lemma_children_widen(children, n, lo, room, room);
    let from = if n == 1 {
        lo
    } else {
        extent(children[n - 2].1)
    };
    lemma_laid_out_widens(children[n - 1].1, from, room, from, room);
    if i < n - 1 {
        lemma_child_layout(children, (n - 1) as nat, lo, room, i);
    } else {
        if n > 1 {
            lemma_child_layout(children, (n - 1) as nat, lo, room, n - 2);
            lemma_laid_out_widens(children[n - 2].1, lo, room, lo, room);
        }
        lemma_laid_out_widens(children[n - 1].1, from, room, lo, room);
    }
}

/// The value that a pointer leads to in a value that is laid out is laid
/// out, and ends no later.
pub proof fn lemma_locate_layout(node: Node, segments: Seq<Seq<u8>>, at: nat, lo: int, room: int)
    requires
        laid_out(node, lo, room),
        0 <= lo,
    ensures
        locate(node, segments, at) matches Some(target) ==> laid_out(target, 0, room) && extent(
            target,
        ) <= extent(node),
    decreases segments.len() - at, 1int,
{
    lemma_laid_out_widens(node, lo, room, 0, room);
    if at < segments.len() {
        match node {
            Node::Leaf { .. } => {},
            Node::Branch { pos, children, .. } => {
                lemma_children_widen(children, children.len(), pos + 1, room - 1, room);
                lemma_locate_among_layout(children, segments, at, pos + 1, room);
            },
        }
    }
}

pub proof fn lemma_locate_among_layout(
    children: Seq<(Seq<u8>, Node)>,
    segments: Seq<Seq<u8>>,
    at: nat,
    lo: int,
    room: int,
)
    requires
        children_laid_out(children, children.len(), lo, room),
        0 <= lo,
    ensures
        locate_among(children, children.len(), segments, at) matches Some(target) ==> laid_out(
            target,
            0,
            room,
        ) && children.len() > 0 && extent(target) <= extent(children[children.len() - 1].1),
    decreases segments.len() - at, 0int,
{
    if at < segments.len() {
        crate::tree::lemma_first_child_prefix(
            children,
            children,
            segments[at as int],
            children.len(),
        );
        match first_child(children, segments[at as int], children.len()) {
            None => {},
            Some(i) => {
                lemma_child_layout(children, children.len(), lo, room, i);
                lemma_locate_layout(children[i].1, segments, at + 1, lo, room);
            },
        }
    }
}

} // verus!
