use vstd::prelude::*;
use vstd::utf8::encode_utf8;
use crate::bytes::SLASH;
use crate::tree::Node;
use crate::{PointerKey, ValueType};

verus! {

/// The model of one entry of a flattened document: the
/// pointer and the raw value as bytes, the other fields as they are.
pub struct FlatEntry {
    pub pointer: Seq<u8>,
    pub value_type: ValueType,
    pub depth: u8,
    pub index: usize,
    pub position: usize,
    pub value: Option<Seq<u8>>,
}

/// The part of the options that decides how deep the flattening goes.
#[derive(Clone, Copy, Debug)]
pub struct Policy {
    pub parse_array: bool,
    pub keep_object_raw_data: bool,
    pub max_depth: u8,
}

/// Where a value stands: its pointer, its depth, the index of the element
/// of the nearest array around it that it belongs to, and whether it is
/// itself an element of an array.
pub struct Place {
    pub pointer: Seq<u8>,
    pub depth: int,
    pub index: int,
    pub in_array: bool,
}

/// What an entry of a result holds.
pub open spec fn entry_view(e: (PointerKey<'_>, Option<String>)) -> FlatEntry {
    FlatEntry {
        pointer: encode_utf8(e.0.pointer@),
        value_type: e.0.value_type,
        depth: e.0.depth,
        index: e.0.index,
        position: e.0.position,
        value: match e.1 {
            Some(text) => Some(encode_utf8(text@)),
            None => None,
        },
    }
}

/// What the entries of a result hold, in their order.
pub open spec fn flat_view(entries: Seq<(PointerKey<'_>, Option<String>)>) -> Seq<FlatEntry> {
    Seq::new(entries.len(), |i: int| entry_view(entries[i]))
}

/// The entry for a value at `place`.
pub open spec fn entry_at(place: Place, value_type: ValueType, pos: int, value: Option<Seq<u8>>)
    -> FlatEntry {
    FlatEntry {
        pointer: place.pointer,
        value_type,
        depth: place.depth as u8,
        index: place.index as usize,
        position: pos as usize,
        value,
    }
}

/// The pointer of the child that goes by `key` under `pointer`.
pub open spec fn child_pointer(pointer: Seq<u8>, key: Seq<u8>) -> Seq<u8> {
    pointer + seq![SLASH] + key
}

/// Where the child number `i` of a container stands: one level below the
/// container. An element of an array carries its own index; a member of an
/// object carries the index that the object carries.
pub open spec fn child_place(
    object: bool,
    pointer: Seq<u8>,
    depth: int,
    index: int,
    key: Seq<u8>,
    i: int,
) -> Place {
    Place {
        pointer: child_pointer(pointer, key),
        depth,
        index: if object {
            index
        } else {
            i
        },
        in_array: !object,
    }
}

/// The entry that precedes the members of an object that is flattened
/// member by member. With `keep_object_raw_data` it holds the text of the
/// object; without it an object has an entry only as an element of an
/// array, and that entry holds nothing.
pub open spec fn object_header(place: Place, pos: int, raw: Seq<u8>, policy: Policy) -> Seq<
    FlatEntry,
> {
    if policy.keep_object_raw_data {
        seq![entry_at(place, ValueType::Object, pos, Some(raw))]
    } else if place.in_array {
        seq![entry_at(place, ValueType::Object, pos, None)]
    } else {
        Seq::empty()
    }
}

/// The entries of a value that stands at `place`, in the order of the
/// document, a container before what it holds.
///
/// A leaf gives one entry with its text, and `null` one without. An object
/// above `max_depth` gives its header and then the entries of its members;
/// an object at `max_depth` or below gives one entry that holds its text as
/// it stands in `src`. An array gives an entry with the number of its
/// elements, followed by their entries where `parse_array` is set, holding
/// its text where it is not.
pub open spec fn flatten(node: Node, src: Seq<u8>, place: Place, policy: Policy) -> Seq<FlatEntry>
    decreases node, 0nat,
{
    match node {
        Node::Leaf { kind, pos, text } => seq![
            entry_at(
                place,
                kind,
                pos,
                if kind == ValueType::Null {
                    None
                } else {
                    Some(text)
                },
            ),
        ],
        Node::Branch { object, pos, end, children } => {
            let raw = src.subrange(pos, end);
            if object {
                if place.depth < policy.max_depth {
                    object_header(place, pos, raw, policy) + flatten_children(
                        children,
                        children.len(),
                        true,
                        src,
                        place.pointer,
                        place.depth + 1,
                        place.index,
                        policy,
                    )
                } else {
                    seq![entry_at(place, ValueType::Object, pos, Some(raw))]
                }
            } else {
                if policy.parse_array {
                    seq![entry_at(place, ValueType::Array(children.len() as usize), pos, None)]
                        + flatten_children(
                        children,
                        children.len(),
                        false,
                        src,
                        place.pointer,
                        place.depth + 1,
                        place.index,
                        policy,
                    )
                } else {
                    seq![
                        entry_at(
                            place,
                            ValueType::Array(children.len() as usize),
                            pos,
                            Some(raw),
                        ),
                    ]
                }
            }
        },
    }
}

/// The entries of the first `n` children of a container, one child after
/// the other. `pointer` and `index` are those of the container, `depth` is
/// that of the children.
pub open spec fn flatten_children(
    children: Seq<(Seq<u8>, Node)>,
    n: nat,
    object: bool,
    src: Seq<u8>,
    pointer: Seq<u8>,
    depth: int,
    index: int,
    policy: Policy,
) -> Seq<FlatEntry>
    decreases children, n,
{
    if n == 0 || n > children.len() {
        Seq::empty()
    } else {
        flatten_children(children, (n - 1) as nat, object, src, pointer, depth, index, policy)
            + flatten(
            children[n - 1].1,
            src,
            child_place(object, pointer, depth, index, children[n - 1].0, n - 1),
            policy,
        )
    }
}

/// The entries of a whole document. An object that is the document has no
/// entry of its own and is flattened member by member, whatever
/// `max_depth` is: its members stand at the depth `start`. Any other
/// document stands at `start` itself.
pub open spec fn flatten_root(
    root: Node,
    src: Seq<u8>,
    prefix: Seq<u8>,
    start: u8,
    policy: Policy,
) -> Seq<FlatEntry> {
    match root {
        Node::Branch { object: true, children, .. } => flatten_children(
            children,
            children.len(),
            true,
            src,
            prefix,
            start as int,
            0,
            policy,
        ),
        _ => flatten(
            root,
            src,
            Place { pointer: prefix, depth: start as int, index: 0, in_array: false },
            policy,
        ),
    }
}

/// The depth of the deepest value in `node`, which itself stands at
/// `depth`.
pub open spec fn deepest(node: Node, depth: int) -> int
    decreases node, 0nat,
{
    match node {
        Node::Leaf { .. } => depth,
        Node::Branch { children, .. } => deepest_children(
            children,
            children.len(),
            depth + 1,
            depth,
        ),
    }
}

/// The depth of the deepest value in the first `n` children, which stand at
/// `depth`; `floor` where that is deeper.
pub open spec fn deepest_children(
    children: Seq<(Seq<u8>, Node)>,
    n: nat,
    depth: int,
    floor: int,
) -> int
    decreases children, n,
{
    if n == 0 || n > children.len() {
        floor
    } else {
        let before = deepest_children(children, (n - 1) as nat, depth, floor);
        let last = deepest(children[n - 1].1, depth);
        if last > before {
            last
        } else {
            before
        }
    }
}

/// The depth of the deepest value of a whole document.
pub open spec fn deepest_root(root: Node, start: u8) -> int {
    match root {
        Node::Branch { object: true, children, .. } => deepest_children(
            children,
            children.len(),
            start as int,
            start as int,
        ),
        _ => deepest(root, start as int),
    }
}

pub proof fn lemma_flatten_children_prefix(
    a: Seq<(Seq<u8>, Node)>,
    b: Seq<(Seq<u8>, Node)>,
    n: nat,
    object: bool,
    src: Seq<u8>,
    pointer: Seq<u8>,
    depth: int,
    index: int,
    policy: Policy,
)
    requires
        n <= a.len(),
        n <= b.len(),
        forall|i: int| 0 <= i < n ==> a[i] == b[i],
    ensures
        flatten_children(a, n, object, src, pointer, depth, index, policy) == flatten_children(
            b,
            n,
            object,
            src,
            pointer,
            depth,
            index,
            policy,
        ),
    decreases n,
{
    if n > 0 {
        lemma_flatten_children_prefix(
            a,
            b,
            (n - 1) as nat,
            object,
            src,
            pointer,
            depth,
            index,
            policy,
        );
    }
}

pub proof fn lemma_deepest_children_prefix(
    a: Seq<(Seq<u8>, Node)>,
    b: Seq<(Seq<u8>, Node)>,
    n: nat,
    depth: int,
    floor: int,
)
    requires
        n <= a.len(),
        n <= b.len(),
        forall|i: int| 0 <= i < n ==> a[i] == b[i],
    ensures
        deepest_children(a, n, depth, floor) == deepest_children(b, n, depth, floor),
    decreases n,
{
    if n > 0 {
        lemma_deepest_children_prefix(a, b, (n - 1) as nat, depth, floor);
    }
}

pub proof fn lemma_flat_view_push(
    entries: Seq<(PointerKey<'_>, Option<String>)>,
    e: (PointerKey<'_>, Option<String>),
)
    ensures
        flat_view(entries.push(e)) == flat_view(entries).push(entry_view(e)),
{
    assert(flat_view(entries.push(e)) =~= flat_view(entries).push(entry_view(e)));
}

pub proof fn lemma_flat_view_concat(
    a: Seq<(PointerKey<'_>, Option<String>)>,
    b: Seq<(PointerKey<'_>, Option<String>)>,
)
    ensures
        flat_view(a + b) == flat_view(a) + flat_view(b),
{
    assert(flat_view(a + b) =~= flat_view(a) + flat_view(b));
}

pub proof fn lemma_flat_view_update(
    entries: Seq<(PointerKey<'_>, Option<String>)>,
    i: int,
    e: (PointerKey<'_>, Option<String>),
)
    requires
        0 <= i < entries.len(),
    ensures
        flat_view(entries.update(i, e)) == flat_view(entries).update(i, entry_view(e)),
{
    assert(flat_view(entries.update(i, e)) =~= flat_view(entries).update(i, entry_view(e)));
}

} // verus!
