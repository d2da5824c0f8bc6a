use vstd::prelude::*;
use vstd::utf8::encode_utf8;
use crate::bytes::{decimal, lemma_decimal_is_ascii, lemma_decimal_is_injective, SLASH};
use crate::flatten::{
    child_place, child_pointer, entry_at, flatten, flatten_children, flatten_root, object_header,
    FlatEntry, Place, Policy,
};
use crate::layout::{
    begins_at, children_laid_out, extent, keyed_by_index, laid_out, lemma_child_layout,
    lemma_children_widen, lemma_laid_out_as_root, lemma_laid_out_widens,
    lemma_locate_among_layout, lemma_locate_layout, lemma_root_layout, root_laid_out,
};
use crate::lexer::lemma_token_at;
use crate::parser::{flatten_document, start_target};
use crate::tree::{document_at, locate, split_pointer, Node, MAX_NESTING};
use crate::widen::{depth_after, widened};
use crate::{
    column_pointer, has_columns, has_value, last_slash, lemma_first_with_pointer,
    parent_pointer, RowView,
};

verus! {

/// The value at which the flattening of a document starts.
pub open spec fn start_point(src: Seq<u8>, pos: int, start_at: Option<Seq<u8>>, start: u8) -> Node {
    start_target(document_at(src, pos, start)->Ok_0, start_at)->Some_0
}

/// The value at which the flattening of a document starts is laid out in
/// the text.
pub proof fn lemma_start_point_layout(
    src: Seq<u8>,
    pos: int,
    policy: Policy,
    prefix: Seq<u8>,
    start_at: Option<Seq<u8>>,
    start: u8,
)
    requires
        0 <= pos <= src.len(),
        flatten_document(src, pos, policy, prefix, start_at, start) is Ok,
    ensures
        root_laid_out(start_point(src, pos, start_at, start), MAX_NESTING - start),
        extent(start_point(src, pos, start_at, start)) <= src.len(),
        flatten_document(src, pos, policy, prefix, start_at, start)->Ok_0.0 == flatten_root(
            start_point(src, pos, start_at, start),
            src,
            prefix,
            start,
            policy,
        ),
{
    lemma_token_at(src, pos);
    lemma_root_layout(src, pos, start as int, start as int);
    let root = document_at(src, pos, start)->Ok_0;
    let room = MAX_NESTING - start;
    match root {
        Node::Branch { object: true, pos: at, children, .. } => {
            match start_at {
                None => {},
                Some(pointer) => {
                    let segments = split_pointer(pointer)->Some_0;
                    if segments.len() > 0 {
                        lemma_locate_among_layout(children, segments, 0, at + 1, room);
                        lemma_laid_out_as_root(start_point(src, pos, start_at, start), 0, room);
                    }
                },
            }
        },
        _ => {
            match start_at {
                None => {},
                Some(pointer) => {
                    let segments = split_pointer(pointer)->Some_0;
                    lemma_locate_layout(root, segments, 0, pos, room);
                },
            }
            lemma_laid_out_widens(root, pos, room, 0, room);
            lemma_laid_out_as_root(start_point(src, pos, start_at, start), 0, room);
        },
    }
}

/// True when every entry begins at an offset from `lo` up to `hi`.
pub open spec fn within(entries: Seq<FlatEntry>, lo: int, hi: int) -> bool {
    forall|i: int| 0 <= i < entries.len() ==> lo <= (#[trigger] entries[i]).position < hi
}

/// True when every entry begins behind the one before it.
pub open spec fn ascending(entries: Seq<FlatEntry>) -> bool {
    forall|i: int, j: int|
        0 <= i < j < entries.len() ==> (#[trigger] entries[i]).position < (
        #[trigger] entries[j]).position
}

proof fn lemma_ascending_concat(a: Seq<FlatEntry>, b: Seq<FlatEntry>, lo: int, mid: int, hi: int)
    requires
        within(a, lo, mid),
        within(b, mid, hi),
        ascending(a),
        ascending(b),
        lo <= mid <= hi,
    ensures
        within(a + b, lo, hi),
        ascending(a + b),
{
    let all = a + b;
    assert forall|i: int| 0 <= i < all.len() implies lo <= (#[trigger] all[i]).position < hi by {
        if i < a.len() {
            assert(all[i] == a[i]);
        } else {
            assert(all[i] == b[i - a.len()]);
        }
    }
    assert forall|i: int, j: int| 0 <= i < j < all.len() implies (#[trigger] all[i]).position < (
    #[trigger] all[j]).position by {
        if i < a.len() {
            assert(all[i] == a[i]);
        } else {
            assert(all[i] == b[i - a.len()]);
        }
        if j < a.len() {
            assert(all[j] == a[j]);
        } else {
            assert(all[j] == b[j - a.len()]);
        }
    }
}

/// The entries of a value begin inside the value, each behind the one
/// before it.
pub proof fn lemma_flatten_positions(
    node: Node,
    src: Seq<u8>,
    place: Place,
    policy: Policy,
    lo: int,
    room: int,
    bound: int,
)
    requires
        laid_out(node, lo, room),
        0 <= lo,
        extent(node) <= bound <= usize::MAX,
    ensures
        within(flatten(node, src, place, policy), begins_at(node), extent(node)),
        ascending(flatten(node, src, place, policy)),
    decreases node, 0nat,
{
    match node {
        Node::Leaf { .. } => {},
        Node::Branch { object, pos, end, children } => {
            let inner = flatten_children(
                children,
                children.len(),
                object,
                src,
                place.pointer,
                place.depth + 1,
                place.index,
                policy,
            );
            lemma_children_positions(
                children,
                children.len(),
                object,
                src,
                place.pointer,
                place.depth + 1,
                place.index,
                policy,
                pos + 1,
                room - 1,
                bound,
            );
            let raw = src.subrange(pos, end);
            let header = if object {
                object_header(place, pos, raw, policy)
            } else {
                seq![entry_at(place, crate::ValueType::Array(children.len() as usize), pos, None)]
            };
            assert(within(header, pos, pos + 1));
            assert(ascending(header));
            assert(within(inner, pos + 1, end));
            lemma_ascending_concat(header, inner, pos, pos + 1, end);
        },
    }
}

pub proof fn lemma_children_positions(
    children: Seq<(Seq<u8>, Node)>,
    n: nat,
    object: bool,
    src: Seq<u8>,
    pointer: Seq<u8>,
    depth: int,
    index: int,
    policy: Policy,
    lo: int,
    room: int,
    bound: int,
)
    requires
        children_laid_out(children, n, lo, room),
        0 <= lo,
        n > 0 ==> n <= children.len() && extent(children[n - 1].1) <= bound,
        bound <= usize::MAX,
    ensures
        within(
            flatten_children(children, n, object, src, pointer, depth, index, policy),
            lo,
            if n > 0 {
                extent(children[n - 1].1)
            } else {
                lo
            },
        ),
        ascending(flatten_children(children, n, object, src, pointer, depth, index, policy)),
    decreases children, n,
{
    if n > 0 {
        let from = if n == 1 {
            lo
        } else {
            extent(children[n - 2].1)
        };
        let last = children[n - 1].1;
        lemma_laid_out_widens(last, from, room, from, room);
        if n > 1 {
            lemma_child_layout(children, (n - 1) as nat, lo, room, n - 2);
            lemma_laid_out_widens(children[n - 2].1, lo, room, lo, room);
        }
        lemma_children_positions(
            children,
            (n - 1) as nat,
            object,
            src,
            pointer,
            depth,
            index,
            policy,
            lo,
            room,
            bound,
        );
        let place = child_place(object, pointer, depth, index, children[n - 1].0, n - 1);
        lemma_flatten_positions(last, src, place, policy, from, room, bound);
        let before = flatten_children(
            children,
            (n - 1) as nat,
            object,
            src,
            pointer,
            depth,
            index,
            policy,
        );
        let more = flatten(last, src, place, policy);
        assert(within(more, from, extent(last)));
        lemma_ascending_concat(before, more, lo, from, extent(last));
    }
}

/// The entries of a flattened document follow the text: each stands for a
/// value that begins behind the value of the entry before it, so that a
/// container precedes what it holds and what comes earlier in the text
/// comes earlier in the result.
pub proof fn law_entries_follow_the_text(
    src: Seq<u8>,
    pos: int,
    policy: Policy,
    prefix: Seq<u8>,
    start_at: Option<Seq<u8>>,
    start: u8,
)
    requires
        0 <= pos <= src.len() <= usize::MAX,
        flatten_document(src, pos, policy, prefix, start_at, start) is Ok,
    ensures
        ascending(flatten_document(src, pos, policy, prefix, start_at, start)->Ok_0.0),
        within(
            flatten_document(src, pos, policy, prefix, start_at, start)->Ok_0.0,
            pos,
            src.len() as int,
        ),
{
    lemma_start_point_layout(src, pos, policy, prefix, start_at, start);
    let target = start_point(src, pos, start_at, start);
    let room = MAX_NESTING - start;
    lemma_token_at(src, pos);
    lemma_root_layout(src, pos, start as int, start as int);
    lemma_start_point_begins(src, pos, start_at, start);
    match target {
        Node::Branch { object: true, pos: at, children, .. } => {
            lemma_children_positions(
                children,
                children.len(),
                true,
                src,
                prefix,
                start as int,
                0,
                policy,
                at + 1,
                room,
                src.len() as int,
            );
        },
        _ => {
            lemma_flatten_positions(
                target,
                src,
                Place { pointer: prefix, depth: start as int, index: 0, in_array: false },
                policy,
                0,
                room,
                src.len() as int,
            );
        },
    }
}

/// The value at which the flattening starts begins at or after the place
/// where the document does.
pub proof fn lemma_start_point_begins(
    src: Seq<u8>,
    pos: int,
    start_at: Option<Seq<u8>>,
    start: u8,
)
    requires
        0 <= pos <= src.len(),
        document_at(src, pos, start) is Ok,
        start_target(document_at(src, pos, start)->Ok_0, start_at) is Some,
    ensures
        pos <= begins_at(start_point(src, pos, start_at, start)),
{
    lemma_token_at(src, pos);
    lemma_root_layout(src, pos, start as int, start as int);
    let root = document_at(src, pos, start)->Ok_0;
    let room = MAX_NESTING - start;
    match start_at {
        None => {},
        Some(pointer) => {
            let segments = split_pointer(pointer)->Some_0;
            match root {
                Node::Branch { object: true, pos: at, children, .. } => {
                    if segments.len() > 0 {
                        lemma_located_begins_among(children, segments, 0, at + 1, room);
                    }
                },
                _ => {
                    lemma_located_begins(root, segments, 0, pos, room);
                },
            }
        },
    }
}

proof fn lemma_located_begins(node: Node, segments: Seq<Seq<u8>>, at: nat, lo: int, room: int)
    requires
        laid_out(node, lo, room),
    ensures
        locate(node, segments, at) matches Some(target) ==> lo <= begins_at(target),
    decreases segments.len() - at, 1int,
{
    lemma_laid_out_widens(node, lo, room, lo, room);
    if at < segments.len() {
        match node {
            Node::Leaf { .. } => {},
            Node::Branch { pos, children, .. } => {
                lemma_located_begins_among(children, segments, at, pos + 1, room - 1);
            },
        }
    }
}

proof fn lemma_located_begins_among(
    children: Seq<(Seq<u8>, Node)>,
    segments: Seq<Seq<u8>>,
    at: nat,
    lo: int,
    room: int,
)
    requires
        children_laid_out(children, children.len(), lo, room),
    ensures
        crate::tree::locate_among(children, children.len(), segments, at) matches Some(target)
            ==> lo <= begins_at(target),
    decreases segments.len() - at, 0int,
{
    if at < segments.len() {
        crate::tree::lemma_first_child_prefix(
            children,
            children,
            segments[at as int],
            children.len(),
        );
        match crate::tree::first_child(children, segments[at as int], children.len()) {
            None => {},
            Some(i) => {
                lemma_child_layout(children, children.len(), lo, room, i);
                lemma_located_begins(children[i].1, segments, at + 1, lo, room);
            },
        }
    }
}

/// The pointer that the segments write: a slash before each.
pub open spec fn path_of(segments: Seq<Seq<u8>>) -> Seq<u8>
    decreases segments.len(),
{
    if segments.len() == 0 {
        Seq::empty()
    } else {
        seq![SLASH] + segments[0] + path_of(segments.drop_first())
    }
}

/// The segments that lead from the place of a value to one of its entries:
/// the pointer of the entry is the pointer of the place followed by them,
/// and its depth is the depth of the place and one more for each.
pub proof fn lemma_flatten_trail(
    node: Node,
    src: Seq<u8>,
    place: Place,
    policy: Policy,
    lo: int,
    room: int,
    i: int,
) -> (segments: Seq<Seq<u8>>)
    requires
        laid_out(node, lo, room),
        0 <= place.depth,
        place.depth + room <= 255,
        0 <= i < flatten(node, src, place, policy).len(),
    ensures
        flatten(node, src, place, policy)[i].pointer == place.pointer + path_of(segments),
        flatten(node, src, place, policy)[i].depth == place.depth + segments.len(),
        segments.len() <= room,
    decreases node, 0nat,
{
    let nothing = Seq::<Seq<u8>>::empty();
    assert(place.pointer + path_of(nothing) =~= place.pointer);
    match node {
        Node::Leaf { .. } => nothing,
        Node::Branch { object, pos, end, children } => {
            let raw = src.subrange(pos, end);
            let expanded = if object {
                place.depth < policy.max_depth
            } else {
                policy.parse_array
            };
            let header = if object {
                object_header(place, pos, raw, policy)
            } else {
                seq![entry_at(place, crate::ValueType::Array(children.len() as usize), pos, None)]
            };
            if expanded && i >= header.len() {
                let segments = lemma_children_trail(
                    children,
                    children.len(),
                    object,
                    src,
                    place.pointer,
                    place.depth + 1,
                    place.index,
                    policy,
                    pos + 1,
                    room - 1,
                    i - header.len(),
                );
                segments
            } else {
                nothing
            }
        },
    }
}

pub proof fn lemma_children_trail(
    children: Seq<(Seq<u8>, Node)>,
    n: nat,
    object: bool,
    src: Seq<u8>,
    pointer: Seq<u8>,
    depth: int,
    index: int,
    policy: Policy,
    lo: int,
    room: int,
    i: int,
) -> (segments: Seq<Seq<u8>>)
    requires
        children_laid_out(children, n, lo, room),
        0 <= depth,
        depth + room <= 255,
        0 <= i < flatten_children(children, n, object, src, pointer, depth, index, policy).len(),
    ensures
        flatten_children(children, n, object, src, pointer, depth, index, policy)[i].pointer
            == pointer + path_of(segments),
        flatten_children(children, n, object, src, pointer, depth, index, policy)[i].depth
            == depth - 1 + segments.len(),
        1 <= segments.len() <= room + 1,
    decreases children, n,
{
    let before = flatten_children(
        children,
        (n - 1) as nat,
        object,
        src,
        pointer,
        depth,
        index,
        policy,
    );
    lemma_children_widen(children, n, lo, room, room);
    if i < before.len() {
        lemma_children_trail(
            children,
            (n - 1) as nat,
            object,
            src,
            pointer,
            depth,
            index,
            policy,
            lo,
            room,
            i,
        )
    } else {
        let key = children[n - 1].0;
        let place = child_place(object, pointer, depth, index, key, n - 1);
        lemma_child_layout(children, n, lo, room, n - 1);
        let rest = lemma_flatten_trail(children[n - 1].1, src, place, policy, lo, room, i - before.len());
        let segments = seq![key] + rest;
        assert(segments.drop_first() =~= rest);
        assert(pointer + path_of(segments) =~= child_pointer(pointer, key) + path_of(rest));
        segments
    }
}

/// The depth of the value at which the flattening starts. The members of
/// an object that is flattened as a root stand at the depth from which the
/// depths are counted, so that the object itself stands one above.
pub open spec fn start_point_depth(target: Node, start: u8) -> int {
    match target {
        Node::Branch { object: true, .. } => start - 1,
        _ => start as int,
    }
}

/// The depth of an entry counts the segments of its pointer: the pointer
/// is the prefix followed by as many segments as the entry lies below the
/// value at which the flattening started. The segments are the result.
pub proof fn law_depth_counts_segments(
    src: Seq<u8>,
    pos: int,
    policy: Policy,
    prefix: Seq<u8>,
    start_at: Option<Seq<u8>>,
    start: u8,
    i: int,
) -> (segments: Seq<Seq<u8>>)
    requires
        0 <= pos <= src.len(),
        flatten_document(src, pos, policy, prefix, start_at, start) is Ok,
        0 <= i < flatten_document(src, pos, policy, prefix, start_at, start)->Ok_0.0.len(),
    ensures
        flatten_document(src, pos, policy, prefix, start_at, start)->Ok_0.0[i].pointer == prefix
            + path_of(segments),
        flatten_document(src, pos, policy, prefix, start_at, start)->Ok_0.0[i].depth
            == start_point_depth(start_point(src, pos, start_at, start), start) + segments.len(),
{
    lemma_start_point_layout(src, pos, policy, prefix, start_at, start);
    let target = start_point(src, pos, start_at, start);
    let room = MAX_NESTING - start;
    match target {
        Node::Branch { object: true, pos: at, children, .. } => lemma_children_trail(
            children,
            children.len(),
            true,
            src,
            prefix,
            start as int,
            0,
            policy,
            at + 1,
            room,
            i,
        ),
        _ => lemma_flatten_trail(
            target,
            src,
            Place { pointer: prefix, depth: start as int, index: 0, in_array: false },
            policy,
            0,
            room,
            i,
        ),
    }
}

/// Widening a result twice to one depth gives what widening it once
/// gives: the second time nothing is left to widen.
pub proof fn law_widening_twice_is_widening_once(
    entries: Seq<FlatEntry>,
    reached: u8,
    policy: Policy,
    start_at: Option<Seq<u8>>,
)
    requires
        widened(entries, reached, policy, start_at) is Ok,
    ensures
        widened(
            widened(entries, reached, policy, start_at)->Ok_0,
            depth_after(reached, policy),
            policy,
            start_at,
        ) == widened(entries, reached, policy, start_at),
{
}

/// A row in which a column is absent is left out by the filter.
pub proof fn law_absent_column_excludes(
    rows: Seq<RowView>,
    prefix: Seq<u8>,
    columns: Seq<String>,
    i: int,
    c: int,
)
    requires
        0 <= i < rows.len(),
        0 <= c < columns.len(),
        forall|k: int|
            0 <= k < rows[i].entries.len() ==> (#[trigger] rows[i].entries[k]).pointer
                != column_pointer(prefix, rows[i].index, encode_utf8(columns[c]@)),
    ensures
        !rows.filter(|row: RowView| has_columns(row, prefix, columns, columns.len())).contains(
            rows[i],
        ),
{
    let pointer = column_pointer(prefix, rows[i].index, encode_utf8(columns[c]@));
    lemma_first_with_pointer(rows[i].entries, pointer, rows[i].entries.len());
    lemma_row_without_value(rows, prefix, columns, i, c);
}

/// A row in which the first entry of a column holds nothing is left out
/// by the filter, as a row is in which the column is absent.
pub proof fn law_null_column_excludes(
    rows: Seq<RowView>,
    prefix: Seq<u8>,
    columns: Seq<String>,
    i: int,
    c: int,
    k: int,
)
    requires
        0 <= i < rows.len(),
        0 <= c < columns.len(),
        0 <= k < rows[i].entries.len(),
        rows[i].entries[k].pointer == column_pointer(
            prefix,
            rows[i].index,
            encode_utf8(columns[c]@),
        ),
        rows[i].entries[k].value is None,
        forall|j: int|
            0 <= j < k ==> (#[trigger] rows[i].entries[j]).pointer != column_pointer(
                prefix,
                rows[i].index,
                encode_utf8(columns[c]@),
            ),
    ensures
        !rows.filter(|row: RowView| has_columns(row, prefix, columns, columns.len())).contains(
            rows[i],
        ),
{
    let pointer = column_pointer(prefix, rows[i].index, encode_utf8(columns[c]@));
    lemma_first_with_pointer(rows[i].entries, pointer, rows[i].entries.len());
    lemma_row_without_value(rows, prefix, columns, i, c);
}

proof fn lemma_row_without_value(
    rows: Seq<RowView>,
    prefix: Seq<u8>,
    columns: Seq<String>,
    i: int,
    c: int,
)
    requires
        0 <= i < rows.len(),
        0 <= c < columns.len(),
        !has_value(
            rows[i].entries,
            column_pointer(prefix, rows[i].index, encode_utf8(columns[c]@)),
        ),
    ensures
        !rows.filter(|row: RowView| has_columns(row, prefix, columns, columns.len())).contains(
            rows[i],
        ),
{
    let keep = |row: RowView| has_columns(row, prefix, columns, columns.len());
    let kept = rows.filter(keep);
    assert(!keep(rows[i])) by {
        let column = columns[c];
        assert(!has_value(
            rows[i].entries,
            column_pointer(prefix, rows[i].index, encode_utf8(column@)),
        ));
    }
    if kept.contains(rows[i]) {
        let at = choose|at: int| 0 <= at < kept.len() && kept[at] == rows[i];
        rows.lemma_filter_pred(keep, at);
    }
}


/// True when no byte of the key is a slash.
pub open spec fn no_slash(key: Seq<u8>) -> bool {
    forall|i: int| 0 <= i < key.len() ==> #[trigger] key[i] != SLASH
}

/// True when the keys of the children hold no slash and differ from one
/// another.
pub open spec fn keys_apart(children: Seq<(Seq<u8>, Node)>) -> bool {
    &&& forall|i: int| 0 <= i < children.len() ==> no_slash((#[trigger] children[i]).0)
    &&& forall|i: int, j: int|
        0 <= i < j < children.len() ==> (#[trigger] children[i]).0 != (#[trigger] children[j]).0
}

/// True when a container at `depth` is flattened child by child.
pub open spec fn is_expanded(object: bool, depth: int, policy: Policy) -> bool {
    if object {
        depth < policy.max_depth
    } else {
        policy.parse_array
    }
}

/// True when, as far as the value at `depth` is flattened, no object holds
/// two members with one key or a key with a slash in it.
pub open spec fn plain_keys(node: Node, depth: int, policy: Policy) -> bool
    decreases node,
{
    match node {
        Node::Leaf { .. } => true,
        Node::Branch { object, children, .. } => is_expanded(object, depth, policy) ==> {
            &&& object ==> keys_apart(children)
            &&& forall|i: int|
                0 <= i < children.len() ==> plain_keys(
                    (#[trigger] children[i]).1,
                    depth + 1,
                    policy,
                )
        },
    }
}

/// The same of a value that is flattened as a root.
pub open spec fn plain_root(target: Node, start: u8, policy: Policy) -> bool {
    match target {
        Node::Branch { object: true, children, .. } => {
            &&& keys_apart(children)
            &&& forall|i: int|
                0 <= i < children.len() ==> plain_keys(
                    (#[trigger] children[i]).1,
                    start as int,
                    policy,
                )
        },
        _ => plain_keys(target, start as int, policy),
    }
}

/// True when `pointer` is `base` or leads below it.
pub open spec fn under(pointer: Seq<u8>, base: Seq<u8>) -> bool {
    pointer == base || (pointer.len() > base.len() && pointer.subrange(0, base.len() as int)
        == base && pointer[base.len() as int] == SLASH)
}

/// The indices of an array are keys that hold no slash and differ.
proof fn lemma_indices_apart(children: Seq<(Seq<u8>, Node)>)
    requires
        keyed_by_index(children),
    ensures
        keys_apart(children),
{
    assert forall|i: int| 0 <= i < children.len() implies no_slash((#[trigger] children[i]).0) by {
        lemma_decimal_is_ascii(i as nat);
    }
    assert forall|i: int, j: int| 0 <= i < j < children.len() implies (#[trigger] children[i]).0
        != (#[trigger] children[j]).0 by {
        if decimal(i as nat) == decimal(j as nat) {
            lemma_decimal_is_injective(i as nat, j as nat);
        }
    }
}

/// What leads below a child leads below its container, and is not the
/// pointer of the container.
proof fn lemma_under_child(p: Seq<u8>, pointer: Seq<u8>, key: Seq<u8>)
    requires
        under(p, child_pointer(pointer, key)),
    ensures
        under(p, pointer),
        p != pointer,
        p.len() > pointer.len(),
{
    let c = child_pointer(pointer, key);
    assert(c.len() == pointer.len() + 1 + key.len());
    assert(c[pointer.len() as int] == SLASH);
    assert(c.subrange(0, pointer.len() as int) =~= pointer);
    if p != c {
        assert(p.subrange(0, c.len() as int)[pointer.len() as int] == SLASH);
        assert(p.subrange(0, pointer.len() as int) =~= p.subrange(0, c.len() as int).subrange(
            0,
            pointer.len() as int,
        ));
    }
}

/// Nothing leads below two children whose keys differ and hold no slash.
proof fn lemma_children_part(p: Seq<u8>, pointer: Seq<u8>, first: Seq<u8>, second: Seq<u8>)
    requires
        no_slash(first),
        no_slash(second),
        first != second,
        under(p, child_pointer(pointer, first)),
    ensures
        !under(p, child_pointer(pointer, second)),
{
    let a = child_pointer(pointer, first);
    let b = child_pointer(pointer, second);
    let base = pointer.len() + 1;
    assert(a.len() == base + first.len());
    assert(b.len() == base + second.len());
    if under(p, b) {
        assert(p.subrange(0, a.len() as int) == a);
        assert(p.subrange(0, b.len() as int) == b);
        if first.len() == second.len() {
            assert(first =~= second) by {
                assert forall|k: int| 0 <= k < first.len() implies first[k] == second[k] by {
                    assert(a[base + k] == first[k]);
                    assert(b[base + k] == second[k]);
                    assert(p.subrange(0, a.len() as int)[base + k] == p[base + k]);
                    assert(p.subrange(0, b.len() as int)[base + k] == p[base + k]);
                }
            }
        } else if first.len() < second.len() {
            let k = first.len() as int;
            assert(p[base + k] == SLASH);
            assert(p.subrange(0, b.len() as int)[base + k] == p[base + k]);
            assert(b[base + k] == second[k]);
        } else {
            let k = second.len() as int;
            assert(p[base + k] == SLASH);
            assert(p.subrange(0, a.len() as int)[base + k] == p[base + k]);
            assert(a[base + k] == first[k]);
        }
    }
}

/// True when every entry leads to `base` or below it.
pub open spec fn all_under(entries: Seq<FlatEntry>, base: Seq<u8>) -> bool {
    forall|i: int| 0 <= i < entries.len() ==> under((#[trigger] entries[i]).pointer, base)
}

/// True when no two entries have the same pointer.
pub open spec fn pointers_differ(entries: Seq<FlatEntry>) -> bool {
    forall|i: int, j: int|
        0 <= i < j < entries.len() ==> (#[trigger] entries[i]).pointer != (
        #[trigger] entries[j]).pointer
}

/// The entries of a value lead to its place or below it.
proof fn lemma_flatten_under(node: Node, src: Seq<u8>, place: Place, policy: Policy)
    ensures
        all_under(flatten(node, src, place, policy), place.pointer),
    decreases node, 0nat,
{
    match node {
        Node::Leaf { .. } => {},
        Node::Branch { object, pos, end, children } => {
            let es = flatten(node, src, place, policy);
            let inner = flatten_children(
                children,
                children.len(),
                object,
                src,
                place.pointer,
                place.depth + 1,
                place.index,
                policy,
            );
            lemma_children_under(
                children,
                children.len(),
                object,
                src,
                place.pointer,
                place.depth + 1,
                place.index,
                policy,
            );
            assert forall|i: int| 0 <= i < es.len() implies under(
                (#[trigger] es[i]).pointer,
                place.pointer,
            ) by {
                if es[i].pointer != place.pointer {
                    let k = i - (es.len() - inner.len());
                    assert(es[i] == inner[k]);
                }
            }
        },
    }
}

/// True when every entry leads below `base`, and none to `base` itself.
pub open spec fn all_below(entries: Seq<FlatEntry>, base: Seq<u8>) -> bool {
    forall|i: int|
        0 <= i < entries.len() ==> under((#[trigger] entries[i]).pointer, base)
            && entries[i].pointer != base
}

proof fn lemma_children_under(
    children: Seq<(Seq<u8>, Node)>,
    n: nat,
    object: bool,
    src: Seq<u8>,
    pointer: Seq<u8>,
    depth: int,
    index: int,
    policy: Policy,
)
    ensures
        all_below(
            flatten_children(children, n, object, src, pointer, depth, index, policy),
            pointer,
        ),
    decreases children, n,
{
    if n > 0 && n <= children.len() {
        lemma_children_under(children, (n - 1) as nat, object, src, pointer, depth, index, policy);
        let key = children[n - 1].0;
        let place = child_place(object, pointer, depth, index, key, n - 1);
        lemma_flatten_under(children[n - 1].1, src, place, policy);
        let before = flatten_children(
            children,
            (n - 1) as nat,
            object,
            src,
            pointer,
            depth,
            index,
            policy,
        );
        let more = flatten(children[n - 1].1, src, place, policy);
        let es = before + more;
        assert forall|i: int| 0 <= i < es.len() implies under((#[trigger] es[i]).pointer, pointer)
            && es[i].pointer != pointer by {
            if i < before.len() {
                assert(es[i] == before[i]);
            } else {
                assert(es[i] == more[i - before.len()]);
                lemma_under_child(es[i].pointer, pointer, key);
            }
        }
    }
}

/// True when no entry leads to the child `key` of `pointer` or below it.
pub open spec fn none_under(entries: Seq<FlatEntry>, pointer: Seq<u8>, key: Seq<u8>) -> bool {
    forall|i: int|
        0 <= i < entries.len() ==> !under(
            (#[trigger] entries[i]).pointer,
            child_pointer(pointer, key),
        )
}

/// The entries of children lead nowhere below a child of another key.
proof fn lemma_children_avoid(
    children: Seq<(Seq<u8>, Node)>,
    n: nat,
    object: bool,
    src: Seq<u8>,
    pointer: Seq<u8>,
    depth: int,
    index: int,
    policy: Policy,
    key: Seq<u8>,
)
    requires
        n <= children.len(),
        no_slash(key),
        forall|m: int| 0 <= m < n ==> no_slash((#[trigger] children[m]).0) && children[m].0 != key,
    ensures
        none_under(
            flatten_children(children, n, object, src, pointer, depth, index, policy),
            pointer,
            key,
        ),
    decreases n,
{
    if n > 0 {
        lemma_children_avoid(
            children,
            (n - 1) as nat,
            object,
            src,
            pointer,
            depth,
            index,
            policy,
            key,
        );
        let own = children[n - 1].0;
        let place = child_place(object, pointer, depth, index, own, n - 1);
        lemma_flatten_under(children[n - 1].1, src, place, policy);
        let before = flatten_children(
            children,
            (n - 1) as nat,
            object,
            src,
            pointer,
            depth,
            index,
            policy,
        );
        let more = flatten(children[n - 1].1, src, place, policy);
        let es = before + more;
        assert forall|i: int| 0 <= i < es.len() implies !under(
            (#[trigger] es[i]).pointer,
            child_pointer(pointer, key),
        ) by {
            if i < before.len() {
                assert(es[i] == before[i]);
            } else {
                assert(es[i] == more[i - before.len()]);
                lemma_children_part(es[i].pointer, pointer, own, key);
            }
        }
    }
}

/// The entries of a value with plain keys have pointers that differ.
proof fn lemma_flatten_unique(
    node: Node,
    src: Seq<u8>,
    place: Place,
    policy: Policy,
    lo: int,
    room: int,
)
    requires
        laid_out(node, lo, room),
        plain_keys(node, place.depth, policy),
    ensures
        pointers_differ(flatten(node, src, place, policy)),
    decreases node, 0nat,
{
    match node {
        Node::Leaf { .. } => {},
        Node::Branch { object, pos, end, children } => {
            if is_expanded(object, place.depth, policy) {
                let es = flatten(node, src, place, policy);
                let inner = flatten_children(
                    children,
                    children.len(),
                    object,
                    src,
                    place.pointer,
                    place.depth + 1,
                    place.index,
                    policy,
                );
                if !object {
                    lemma_indices_apart(children);
                }
                lemma_children_unique(
                    children,
                    children.len(),
                    object,
                    src,
                    place.pointer,
                    place.depth + 1,
                    place.index,
                    policy,
                    pos + 1,
                    room - 1,
                );
                lemma_children_under(
                    children,
                    children.len(),
                    object,
                    src,
                    place.pointer,
                    place.depth + 1,
                    place.index,
                    policy,
                );
                let shift = es.len() - inner.len();
                assert forall|i: int, j: int| 0 <= i < j < es.len() implies (#[trigger] es[i]).pointer
                    != (#[trigger] es[j]).pointer by {
                    assert(es[j] == inner[j - shift]);
                    if i >= shift {
                        assert(es[i] == inner[i - shift]);
                    }
                }
            }
        },
    }
}

proof fn lemma_children_unique(
    children: Seq<(Seq<u8>, Node)>,
    n: nat,
    object: bool,
    src: Seq<u8>,
    pointer: Seq<u8>,
    depth: int,
    index: int,
    policy: Policy,
    lo: int,
    room: int,
)
    requires
        children_laid_out(children, n, lo, room),
        keys_apart(children),
        forall|i: int|
            0 <= i < children.len() ==> plain_keys((#[trigger] children[i]).1, depth, policy),
    ensures
        pointers_differ(flatten_children(children, n, object, src, pointer, depth, index, policy)),
    decreases children, n,
{
    if n > 0 {
        lemma_children_widen(children, n, lo, room, room);
        lemma_child_layout(children, n, lo, room, n - 1);
        lemma_children_unique(
            children,
            (n - 1) as nat,
            object,
            src,
            pointer,
            depth,
            index,
            policy,
            lo,
            room,
        );
        let key = children[n - 1].0;
        let place = child_place(object, pointer, depth, index, key, n - 1);
        lemma_flatten_unique(children[n - 1].1, src, place, policy, lo, room);
        lemma_flatten_under(children[n - 1].1, src, place, policy);
        lemma_children_avoid(
            children,
            (n - 1) as nat,
            object,
            src,
            pointer,
            depth,
            index,
            policy,
            key,
        );
        let before = flatten_children(
            children,
            (n - 1) as nat,
            object,
            src,
            pointer,
            depth,
            index,
            policy,
        );
        let more = flatten(children[n - 1].1, src, place, policy);
        let es = before + more;
        assert forall|i: int, j: int| 0 <= i < j < es.len() implies (#[trigger] es[i]).pointer != (
        #[trigger] es[j]).pointer by {
            if j < before.len() {
                assert(es[i] == before[i]);
                assert(es[j] == before[j]);
            } else {
                assert(es[j] == more[j - before.len()]);
                if i < before.len() {
                    assert(es[i] == before[i]);
                } else {
                    assert(es[i] == more[i - before.len()]);
                }
            }
        }
    }
}

/// No two entries of a flattened document have the same pointer, where no
/// object that is flattened holds two members with one key or a key with a
/// slash in it.
pub proof fn law_pointers_are_unique(
    src: Seq<u8>,
    pos: int,
    policy: Policy,
    prefix: Seq<u8>,
    start_at: Option<Seq<u8>>,
    start: u8,
)
    requires
        0 <= pos <= src.len(),
        flatten_document(src, pos, policy, prefix, start_at, start) is Ok,
        plain_root(start_point(src, pos, start_at, start), start, policy),
    ensures
        pointers_differ(flatten_document(src, pos, policy, prefix, start_at, start)->Ok_0.0),
{
    lemma_start_point_layout(src, pos, policy, prefix, start_at, start);
    let target = start_point(src, pos, start_at, start);
    let room = MAX_NESTING - start;
    match target {
        Node::Branch { object: true, pos: at, children, .. } => {
            lemma_children_unique(
                children,
                children.len(),
                true,
                src,
                prefix,
                start as int,
                0,
                policy,
                at + 1,
                room,
            );
        },
        _ => {
            lemma_flatten_unique(
                target,
                src,
                Place { pointer: prefix, depth: start as int, index: 0, in_array: false },
                policy,
                0,
                room,
            );
        },
    }
}

proof fn lemma_last_slash(pointer: Seq<u8>, at: int, n: nat)
    requires
        0 <= at < n <= pointer.len(),
        pointer[at] == SLASH,
        forall|k: int| at < k < n ==> #[trigger] pointer[k] != SLASH,
    ensures
        last_slash(pointer, n) == Some(at),
    decreases n,
{
    if n - 1 > at {
        lemma_last_slash(pointer, at, (n - 1) as nat);
    }
}

/// The parent of the pointer of a child is the pointer of its container,
/// where the key of the child holds no slash; for a child of the value at
/// the empty pointer it is a lone slash.
pub proof fn law_parent_is_the_container(pointer: Seq<u8>, key: Seq<u8>)
    requires
        no_slash(key),
    ensures
        parent_pointer(child_pointer(pointer, key)) == if pointer.len() == 0 {
            seq![SLASH]
        } else {
            pointer
        },
{
    let child = child_pointer(pointer, key);
    let at = pointer.len() as int;
    assert(child[at] == SLASH);
    assert forall|k: int| at < k < child.len() implies #[trigger] child[k] != SLASH by {
        assert(child[k] == key[k - at - 1]);
    }
    lemma_last_slash(child, at, child.len());
    assert(child.subrange(0, at) =~= pointer);
}

/// True when a value at `place` has an entry of its own, which then is the
/// first of its entries.
pub open spec fn has_own_entry(node: Node, place: Place, policy: Policy) -> bool {
    match node {
        Node::Leaf { .. } => true,
        Node::Branch { object, .. } => !object || policy.keep_object_raw_data || place.in_array
            || place.depth >= policy.max_depth,
    }
}

/// The parent of the pointer of an entry is the pointer of an entry of the
/// same result: where a container that is flattened child by child has an
/// entry of its own, the parent of the entry of each of its children is
/// the pointer of that entry. (The key of the child has to hold no slash,
/// and the container has to stand below the empty pointer.)
pub proof fn law_parent_entry_is_present(
    node: Node,
    src: Seq<u8>,
    place: Place,
    policy: Policy,
    m: int,
)
    requires
        node matches Node::Branch { object, children, .. } && is_expanded(
            object,
            place.depth,
            policy,
        ) && 0 <= m < children.len() && no_slash(children[m].0) && has_own_entry(
            children[m].1,
            child_place(object, place.pointer, place.depth + 1, place.index, children[m].0, m),
            policy,
        ),
        has_own_entry(node, place, policy),
        place.pointer.len() > 0,
    ensures
        ({
            let child = child_place(
                node->object,
                place.pointer,
                place.depth + 1,
                place.index,
                node->children[m].0,
                m,
            );
            let own = flatten(node, src, place, policy);
            let below = flatten(node->children[m].1, src, child, policy);
            &&& own.len() > 0
            &&& below.len() > 0
            &&& parent_pointer(below[0].pointer) == own[0].pointer
        }),
{
    law_parent_is_the_container(place.pointer, node->children[m].0);
}


proof fn lemma_flatten_kinds(
    node: Node,
    src: Seq<u8>,
    place: Place,
    policy: Policy,
    lo: int,
    room: int,
    i: int,
)
    requires
        laid_out(node, lo, room),
        0 <= i < flatten(node, src, place, policy).len(),
    ensures
        flatten(node, src, place, policy)[i].value_type != crate::ValueType::Absent,
    decreases node, 0nat,
{
    match node {
        Node::Leaf { .. } => {},
        Node::Branch { object, pos, end, children } => {
            let es = flatten(node, src, place, policy);
            let inner = flatten_children(
                children,
                children.len(),
                object,
                src,
                place.pointer,
                place.depth + 1,
                place.index,
                policy,
            );
            if is_expanded(object, place.depth, policy) && i >= es.len() - inner.len() {
                lemma_children_kinds(
                    children,
                    children.len(),
                    object,
                    src,
                    place.pointer,
                    place.depth + 1,
                    place.index,
                    policy,
                    pos + 1,
                    room - 1,
                    i - (es.len() - inner.len()),
                );
            }
        },
    }
}

proof fn lemma_children_kinds(
    children: Seq<(Seq<u8>, Node)>,
    n: nat,
    object: bool,
    src: Seq<u8>,
    pointer: Seq<u8>,
    depth: int,
    index: int,
    policy: Policy,
    lo: int,
    room: int,
    i: int,
)
    requires
        children_laid_out(children, n, lo, room),
        0 <= i < flatten_children(children, n, object, src, pointer, depth, index, policy).len(),
    ensures
        flatten_children(children, n, object, src, pointer, depth, index, policy)[i].value_type
            != crate::ValueType::Absent,
    decreases children, n,
{
    let before = flatten_children(
        children,
        (n - 1) as nat,
        object,
        src,
        pointer,
        depth,
        index,
        policy,
    );
    lemma_children_widen(children, n, lo, room, room);
    if i < before.len() {
        lemma_children_kinds(
            children,
            (n - 1) as nat,
            object,
            src,
            pointer,
            depth,
            index,
            policy,
            lo,
            room,
            i,
        );
    } else {
        lemma_child_layout(children, n, lo, room, n - 1);
        lemma_flatten_kinds(
            children[n - 1].1,
            src,
            child_place(object, pointer, depth, index, children[n - 1].0, n - 1),
            policy,
            lo,
            room,
            i - before.len(),
        );
    }
}

/// The kind that stands in where no value has been seen yet is the kind of
/// no entry of a flattened document.
pub proof fn law_no_entry_is_absent(
    src: Seq<u8>,
    pos: int,
    policy: Policy,
    prefix: Seq<u8>,
    start_at: Option<Seq<u8>>,
    start: u8,
    i: int,
)
    requires
        0 <= pos <= src.len(),
        flatten_document(src, pos, policy, prefix, start_at, start) is Ok,
        0 <= i < flatten_document(src, pos, policy, prefix, start_at, start)->Ok_0.0.len(),
    ensures
        flatten_document(src, pos, policy, prefix, start_at, start)->Ok_0.0[i].value_type
            != crate::ValueType::Absent,
{
    lemma_start_point_layout(src, pos, policy, prefix, start_at, start);
    let target = start_point(src, pos, start_at, start);
    let room = MAX_NESTING - start;
    match target {
        Node::Branch { object: true, pos: at, children, .. } => {
            lemma_children_kinds(
                children,
                children.len(),
                true,
                src,
                prefix,
                start as int,
                0,
                policy,
                at + 1,
                room,
                i,
            );
        },
        _ => {
            lemma_flatten_kinds(
                target,
                src,
                Place { pointer: prefix, depth: start as int, index: 0, in_array: false },
                policy,
                0,
                room,
                i,
            );
        },
    }
}


/// The entry whose pointer is the parent of the pointer of the entry
/// number `j` among those of a value, `j` not being the entry of the value
/// itself: the result is its number.
proof fn lemma_parent_in_value(
    node: Node,
    src: Seq<u8>,
    place: Place,
    policy: Policy,
    lo: int,
    room: int,
    j: int,
) -> (i: int)
    requires
        laid_out(node, lo, room),
        plain_keys(node, place.depth, policy),
        policy.keep_object_raw_data,
        0 <= place.depth,
        place.depth + room <= 255,
        place.pointer.len() > 0,
        0 < j < flatten(node, src, place, policy).len(),
    ensures
        0 <= i < j,
        flatten(node, src, place, policy)[i].pointer == parent_pointer(
            flatten(node, src, place, policy)[j].pointer,
        ),
    decreases node, 0nat,
{
    match node {
        Node::Leaf { .. } => 0,
        Node::Branch { object, pos, end, children } => {
            if !object {
                lemma_indices_apart(children);
            }
            let k = lemma_parent_in_children(
                children,
                children.len(),
                object,
                src,
                place.pointer,
                place.depth + 1,
                place.index,
                policy,
                pos + 1,
                room - 1,
                j - 1,
            );
            k + 1
        },
    }
}

/// The same among the entries of the first `n` children of a container.
/// The result is -1 where the entry is that of a child itself, whose
/// parent is the pointer of the container.
proof fn lemma_parent_in_children(
    children: Seq<(Seq<u8>, Node)>,
    n: nat,
    object: bool,
    src: Seq<u8>,
    pointer: Seq<u8>,
    depth: int,
    index: int,
    policy: Policy,
    lo: int,
    room: int,
    j: int,
) -> (k: int)
    requires
        children_laid_out(children, n, lo, room),
        keys_apart(children),
        forall|i: int|
            0 <= i < children.len() ==> plain_keys((#[trigger] children[i]).1, depth, policy),
        policy.keep_object_raw_data,
        0 <= depth,
        depth + room <= 255,
        0 <= j < flatten_children(children, n, object, src, pointer, depth, index, policy).len(),
    ensures
        -1 <= k < j,
        k == -1 ==> flatten_children(children, n, object, src, pointer, depth, index, policy)[j].depth
            == depth && parent_pointer(
            flatten_children(children, n, object, src, pointer, depth, index, policy)[j].pointer,
        ) == if pointer.len() == 0 {
            seq![SLASH]
        } else {
            pointer
        },
        k >= 0 ==> flatten_children(children, n, object, src, pointer, depth, index, policy)[k].pointer
            == parent_pointer(
            flatten_children(children, n, object, src, pointer, depth, index, policy)[j].pointer,
        ),
    decreases children, n,
{
    let before = flatten_children(
        children,
        (n - 1) as nat,
        object,
        src,
        pointer,
        depth,
        index,
        policy,
    );
    lemma_children_widen(children, n, lo, room, room);
    if j < before.len() {
        lemma_parent_in_children(
            children,
            (n - 1) as nat,
            object,
            src,
            pointer,
            depth,
            index,
            policy,
            lo,
            room,
            j,
        )
    } else {
        let key = children[n - 1].0;
        let place = child_place(object, pointer, depth, index, key, n - 1);
        lemma_child_layout(children, n, lo, room, n - 1);
        lemma_laid_out_widens(children[n - 1].1, lo, room, lo, room);
        if j == before.len() {
            law_parent_is_the_container(pointer, key);
            -1
        } else {
            assert(place.pointer.len() > 0);
            let i = lemma_parent_in_value(
                children[n - 1].1,
                src,
                place,
                policy,
                lo,
                room,
                j - before.len(),
            );
            before.len() + i
        }
    }
}

/// The parent of the pointer of an entry is the pointer of an entry that
/// comes before it in the same result, for every entry that lies two
/// levels or more below the value at which the flattening started. The
/// result is the number of that entry. (An entry one level below has the
/// pointer of the start as its parent, which has an entry only where the
/// start is no object, and which `parent` gives as a slash where it is
/// empty.) The text of every object has to be kept, so that no object is
/// without an entry, and no key may hold a slash.
pub proof fn law_parents_are_present(
    src: Seq<u8>,
    pos: int,
    policy: Policy,
    prefix: Seq<u8>,
    start_at: Option<Seq<u8>>,
    start: u8,
    j: int,
) -> (i: int)
    requires
        0 <= pos <= src.len(),
        flatten_document(src, pos, policy, prefix, start_at, start) is Ok,
        policy.keep_object_raw_data,
        plain_root(start_point(src, pos, start_at, start), start, policy),
        0 <= j < flatten_document(src, pos, policy, prefix, start_at, start)->Ok_0.0.len(),
        flatten_document(src, pos, policy, prefix, start_at, start)->Ok_0.0[j].depth
            >= start_point_depth(start_point(src, pos, start_at, start), start) + 2,
    ensures
        0 <= i < j,
        flatten_document(src, pos, policy, prefix, start_at, start)->Ok_0.0[i].pointer
            == parent_pointer(
            flatten_document(src, pos, policy, prefix, start_at, start)->Ok_0.0[j].pointer,
        ),
{
    lemma_start_point_layout(src, pos, policy, prefix, start_at, start);
    let target = start_point(src, pos, start_at, start);
    let room = MAX_NESTING - start;
    match target {
        Node::Branch { object: true, pos: at, children, .. } => lemma_parent_in_children(
            children,
            children.len(),
            true,
            src,
            prefix,
            start as int,
            0,
            policy,
            at + 1,
            room,
            j,
        ),
        Node::Branch { object: false, pos: at, children, .. } => {
            lemma_indices_apart(children);
            let k = lemma_parent_in_children(
                children,
                children.len(),
                false,
                src,
                prefix,
                start + 1,
                0,
                policy,
                at + 1,
                room - 1,
                j - 1,
            );
            k + 1
        },
        Node::Leaf { .. } => 0,
    }
}

} // verus!
