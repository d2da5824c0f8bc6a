use vstd::prelude::*;
use vstd::utf8::valid_utf8;
use crate::bytes::{decimal, lemma_valid_join};
use crate::error::ParseError;
use crate::flatten::{
    child_place, entry_at, flatten, flatten_children, flatten_root, object_header, FlatEntry,
    Place, Policy,
};
use crate::layout::{
    children_laid_out, extent, laid_out, lemma_child_layout, lemma_children_widen,
    lemma_root_layout,
};
use crate::lexer::{lemma_token_at, lemma_token_is_text, token_at, TokenKind};
use crate::moved::{
    children_moved, lemma_members_move, lemma_members_progress, lemma_token_restart,
    lemma_token_within, lemma_value_progress, moved,
};
use crate::parser::flatten_document;
use crate::tree::{
    closes_at, document_at, elements_from, members_from, rooted_at, value_at, Node, MAX_NESTING,
};
use crate::laws::{law_pointers_are_unique, plain_root, pointers_differ, start_point};
use crate::widen::{depth_after, is_deferred, widen_entries, widen_entry, widened};
use crate::ValueType;

verus! {

/// True when two entries differ at most in the index and the position:
/// they have one pointer, one kind, one depth and one value.
pub open spec fn alike(e: FlatEntry, f: FlatEntry) -> bool {
    e.pointer == f.pointer && e.value_type == f.value_type && e.depth == f.depth && e.value
        == f.value
}

/// True when two lists hold entries that are alike, one for one.
pub open spec fn same_content(a: Seq<FlatEntry>, b: Seq<FlatEntry>) -> bool {
    a.len() == b.len() && forall|i: int| 0 <= i < a.len() ==> alike(#[trigger] a[i], b[i])
}

proof fn lemma_same_content_concat(
    a: Seq<FlatEntry>,
    b: Seq<FlatEntry>,
    c: Seq<FlatEntry>,
    d: Seq<FlatEntry>,
)
    requires
        same_content(a, b),
        same_content(c, d),
    ensures
        same_content(a + c, b + d),
{
    let left = a + c;
    let right = b + d;
    assert forall|i: int| 0 <= i < left.len() implies alike(#[trigger] left[i], right[i]) by {
        if i < a.len() {
            assert(left[i] == a[i]);
            assert(right[i] == b[i]);
        } else {
            assert(left[i] == c[i - a.len()]);
            assert(right[i] == d[i - a.len()]);
        }
    }
}

/// A value and the same value read from a part of the text have entries
/// that are alike.
proof fn lemma_flatten_moved(
    node: Node,
    other: Node,
    src: Seq<u8>,
    a: int,
    b: int,
    place: Place,
    index: int,
    policy: Policy,
    lo: int,
    room: int,
)
    requires
        moved(node, other, a),
        0 <= a <= lo,
        laid_out(node, lo, room),
        extent(node) <= b <= src.len(),
    ensures
        same_content(
            flatten(node, src, place, policy),
            flatten(other, src.subrange(a, b), Place { index, ..place }, policy),
        ),
    decreases node, 0nat,
{
    let raw = src.subrange(a, b);
    let place2 = Place { index, ..place };
    match node {
        Node::Leaf { .. } => {},
        Node::Branch { object, pos, end, children } => {
            let others = other->children;
            assert(raw.subrange(pos - a, end - a) =~= src.subrange(pos, end));
            lemma_children_flatten_moved(
                children,
                others,
                children.len(),
                object,
                src,
                a,
                b,
                place.pointer,
                place.depth + 1,
                place.index,
                index,
                policy,
                pos + 1,
                room - 1,
            );
            let inner = flatten_children(
                children,
                children.len(),
                object,
                src,
                place.pointer,
                place.depth + 1,
                place.index,
                policy,
            );
            let inner2 = flatten_children(
                others,
                others.len(),
                object,
                raw,
                place.pointer,
                place.depth + 1,
                index,
                policy,
            );
            let rawtext = src.subrange(pos, end);
            let header = if object {
                object_header(place, pos, rawtext, policy)
            } else {
                seq![entry_at(place, ValueType::Array(children.len() as usize), pos, None)]
            };
            let header2 = if object {
                object_header(place2, pos - a, rawtext, policy)
            } else {
                seq![entry_at(place2, ValueType::Array(children.len() as usize), pos - a, None)]
            };
            assert(same_content(header, header2));
            lemma_same_content_concat(header, header2, inner, inner2);
        },
    }
}

proof fn lemma_children_flatten_moved(
    children: Seq<(Seq<u8>, Node)>,
    others: Seq<(Seq<u8>, Node)>,
    n: nat,
    object: bool,
    src: Seq<u8>,
    a: int,
    b: int,
    pointer: Seq<u8>,
    depth: int,
    index: int,
    index2: int,
    policy: Policy,
    lo: int,
    room: int,
)
    requires
        children_moved(children, others, a),
        0 <= a <= lo,
        children_laid_out(children, n, lo, room),
        n > 0 ==> n <= children.len() && extent(children[n - 1].1) <= b,
        b <= src.len(),
    ensures
        same_content(
            flatten_children(children, n, object, src, pointer, depth, index, policy),
            flatten_children(others, n, object, src.subrange(a, b), pointer, depth, index2, policy),
        ),
    decreases children, n,
{
    if n > 0 {
        let raw = src.subrange(a, b);
        lemma_children_widen(children, n, lo, room, room);
        lemma_child_layout(children, n, lo, room, n - 1);
        if n > 1 {
            lemma_child_layout(children, n, lo, room, n - 2);
        }
        lemma_children_flatten_moved(
            children,
            others,
            (n - 1) as nat,
            object,
            src,
            a,
            b,
            pointer,
            depth,
            index,
            index2,
            policy,
            lo,
            room,
        );
        assert(others[n - 1].0 == children[n - 1].0);
        let key = children[n - 1].0;
        let place = child_place(object, pointer, depth, index, key, n - 1);
        let place2 = child_place(object, pointer, depth, index2, key, n - 1);
        lemma_flatten_moved(
            children[n - 1].1,
            others[n - 1].1,
            src,
            a,
            b,
            place,
            place2.index,
            policy,
            lo,
            room,
        );
        assert(place2 == Place { index: place2.index, ..place });
        lemma_same_content_concat(
            flatten_children(children, (n - 1) as nat, object, src, pointer, depth, index, policy),
            flatten_children(others, (n - 1) as nat, object, raw, pointer, depth, index2, policy),
            flatten(children[n - 1].1, src, place, policy),
            flatten(others[n - 1].1, raw, place2, policy),
        );
    }
}

/// All the entries widened.
pub open spec fn widen_all(entries: Seq<FlatEntry>, reached: u8, policy: Policy) -> Result<
    Seq<FlatEntry>,
    ParseError,
> {
    widen_entries(entries, entries.len(), reached, policy, None)
}

proof fn lemma_widen_prefix(
    a: Seq<FlatEntry>,
    b: Seq<FlatEntry>,
    n: nat,
    reached: u8,
    policy: Policy,
)
    requires
        n <= a.len(),
        n <= b.len(),
        forall|i: int| 0 <= i < n ==> a[i] == b[i],
    ensures
        widen_entries(a, n, reached, policy, None) == widen_entries(b, n, reached, policy, None),
    decreases n,
{
    if n > 0 {
        lemma_widen_prefix(a, b, (n - 1) as nat, reached, policy);
    }
}

/// Widening two lists set one after the other widens each.
proof fn lemma_widen_concat(
    a: Seq<FlatEntry>,
    b: Seq<FlatEntry>,
    k: nat,
    reached: u8,
    policy: Policy,
)
    requires
        widen_all(a, reached, policy) is Ok,
        k <= b.len(),
        widen_entries(b, k, reached, policy, None) is Ok,
    ensures
        widen_entries(a + b, a.len() + k, reached, policy, None) == Ok::<
            Seq<FlatEntry>,
            ParseError,
        >(
            widen_all(a, reached, policy)->Ok_0 + widen_entries(
                b,
                k,
                reached,
                policy,
                None,
            )->Ok_0,
        ),
    decreases k,
{
    let all = a + b;
    if k == 0 {
        lemma_widen_prefix(all, a, a.len(), reached, policy);
        assert(widen_all(a, reached, policy)->Ok_0 + Seq::<FlatEntry>::empty() =~= widen_all(
            a,
            reached,
            policy,
        )->Ok_0);
    } else {
        lemma_widen_concat(a, b, (k - 1) as nat, reached, policy);
        assert(all[a.len() + k - 1] == b[k - 1]);
        let x = widen_all(a, reached, policy)->Ok_0;
        let y = widen_entries(b, (k - 1) as nat, reached, policy, None)->Ok_0;
        let z = widen_entry(b[k - 1], reached, policy, None)->Ok_0;
        assert((x + y) + z =~= x + (y + z));
    }
}

/// True when the two policies ask for the same but for the depth, which
/// the second sets deeper, and keep the text of every object.
pub open spec fn deepens(lo: Policy, hi: Policy) -> bool {
    &&& lo.keep_object_raw_data
    &&& hi.keep_object_raw_data
    &&& lo.parse_array == hi.parse_array
    &&& lo.max_depth < hi.max_depth
}

/// True when no entry of an object stands below the depth `lo` and above
/// the depth `hi`.
pub open spec fn no_object_between(entries: Seq<FlatEntry>, lo: u8, hi: u8) -> bool {
    forall|i: int|
        0 <= i < entries.len() && (#[trigger] entries[i]).value_type == ValueType::Object
            ==> entries[i].depth <= lo || entries[i].depth >= hi
}

/// True when the object, read again from its own text with its members at
/// the nesting below `nest`, is the same object.
pub open spec fn reads_again(node: Node, src: Seq<u8>, nest: int) -> bool {
    match node {
        Node::Leaf { .. } => false,
        Node::Branch { pos, end, children, .. } => {
            let raw = src.subrange(pos, end);
            &&& valid_utf8(raw)
            &&& document_at(raw, 0, (nest + 1) as u8) matches Ok(again)
            &&& again matches Node::Branch { object: true, children: others, .. }
            &&& children_moved(children, others, pos)
        },
    }
}

/// True when every object in the value, which stands at `nest`, reads
/// again as itself.
pub open spec fn reads_well(node: Node, src: Seq<u8>, nest: int) -> bool
    decreases node,
{
    match node {
        Node::Leaf { .. } => true,
        Node::Branch { object, children, .. } => {
            &&& object ==> reads_again(node, src, nest)
            &&& forall|i: int|
                0 <= i < children.len() ==> reads_well((#[trigger] children[i]).1, src, nest + 1)
        },
    }
}

/// True when each of the children reads well.
pub open spec fn children_read_well(children: Seq<(Seq<u8>, Node)>, src: Seq<u8>, nest: int)
    -> bool {
    forall|i: int| 0 <= i < children.len() ==> reads_well((#[trigger] children[i]).1, src, nest)
}

/// A value of a text reads well.
pub proof fn lemma_value_reads_well(src: Seq<u8>, q: int, nest: int)
    requires
        0 <= q <= src.len(),
        0 <= nest <= MAX_NESTING,
    ensures
        value_at(src, q, nest) matches Ok((node, _)) ==> reads_well(node, src, nest),
    decreases src.len() - q, 0int,
{
    lemma_token_at(src, q);
    match token_at(src, q) {
        Err(_) => {},
        Ok(t) => {
            if nest < MAX_NESTING {
                if t.kind == TokenKind::CurlyOpen {
                    lemma_members_read_well(src, t.end, nest + 1, Seq::empty());
                    match members_from(src, t.end, nest + 1, Seq::empty()) {
                        Err(_) => {},
                        Ok((children, end)) => {
                            lemma_object_reads_again(src, q, nest + 1);
                        },
                    }
                } else if t.kind == TokenKind::SquareOpen {
                    lemma_elements_read_well(src, t.end, nest + 1, Seq::empty());
                }
            }
        },
    }
}

/// An object of a text reads again as itself from its own text.
proof fn lemma_object_reads_again(src: Seq<u8>, q: int, child_nest: int)
    requires
        0 <= q <= src.len(),
        1 <= child_nest <= MAX_NESTING,
        token_at(src, q) matches Ok(t) && t.kind == TokenKind::CurlyOpen && members_from(
            src,
            t.end,
            child_nest,
            Seq::empty(),
        ) is Ok,
    ensures
        ({
            let t = token_at(src, q)->Ok_0;
            let found = members_from(src, t.end, child_nest, Seq::empty())->Ok_0;
            reads_again(
                Node::Branch { object: true, pos: t.start, end: found.1, children: found.0 },
                src,
                child_nest - 1,
            )
        }),
{
    let t = token_at(src, q)->Ok_0;
    let found = members_from(src, t.end, child_nest, Seq::empty())->Ok_0;
    let children = found.0;
    let end = found.1;
    lemma_token_at(src, q);
    lemma_members_progress(src, t.end, child_nest, Seq::empty());
    let raw = src.subrange(t.start, end);
    lemma_token_is_text(src, q);
    lemma_valid_join(src, t.start, t.end, end);
    lemma_token_restart(src, q);
    lemma_token_within(src, t.start, end, t.start);
    lemma_members_move(src, t.start, end, t.end, child_nest, Seq::empty(), Seq::empty());
    lemma_token_at(raw, 0);
    let others = members_from(raw, 1, child_nest, Seq::empty())->Ok_0.0;
    assert(rooted_at(raw, 0, child_nest, child_nest) == Ok::<(Node, int), ParseError>(
        (
            Node::Branch { object: true, pos: 0, end: end - t.start, children: others },
            end - t.start,
        ),
    ));
}

proof fn lemma_members_read_well(src: Seq<u8>, q: int, nest: int, acc: Seq<(Seq<u8>, Node)>)
    requires
        0 <= q <= src.len(),
        0 <= nest <= MAX_NESTING,
        children_read_well(acc, src, nest),
    ensures
        members_from(src, q, nest, acc) matches Ok((children, _)) ==> children_read_well(
            children,
            src,
            nest,
        ),
    decreases src.len() - q, 1int,
{
    lemma_token_at(src, q);
    match token_at(src, q) {
        Err(_) => {},
        Ok(key) => {
            if key.kind == TokenKind::StringLiteral {
                lemma_token_at(src, key.end);
                match token_at(src, key.end) {
                    Err(_) => {},
                    Ok(colon) => {
                        if colon.kind == TokenKind::Colon {
                            lemma_value_reads_well(src, colon.end, nest);
                            lemma_value_progress(src, colon.end, nest);
                            match value_at(src, colon.end, nest) {
                                Err(_) => {},
                                Ok((node, after)) => {
                                    lemma_token_at(src, after);
                                    let grown = acc.push((key.text, node));
                                    assert forall|i: int| 0 <= i < grown.len() implies reads_well(
                                        (#[trigger] grown[i]).1,
                                        src,
                                        nest,
                                    ) by {
                                        if i < acc.len() {
                                            assert(grown[i] == acc[i]);
                                        }
                                    }
                                    match token_at(src, after) {
                                        Err(_) => {},
                                        Ok(next) => {
                                            if next.kind == TokenKind::Comma && q < next.end
                                                <= src.len() {
                                                lemma_members_read_well(src, next.end, nest, grown);
                                            }
                                        },
                                    }
                                },
                            }
                        }
                    },
                }
            }
        },
    }
}

proof fn lemma_elements_read_well(src: Seq<u8>, q: int, nest: int, acc: Seq<(Seq<u8>, Node)>)
    requires
        0 <= q <= src.len(),
        0 <= nest <= MAX_NESTING,
        children_read_well(acc, src, nest),
    ensures
        elements_from(src, q, nest, acc) matches Ok((children, _)) ==> children_read_well(
            children,
            src,
            nest,
        ),
    decreases src.len() - q, 1int,
{
    lemma_token_at(src, q);
    if acc.len() == 0 && closes_at(src, q) {
    } else {
        lemma_value_reads_well(src, q, nest);
        lemma_value_progress(src, q, nest);
        match value_at(src, q, nest) {
            Err(_) => {},
            Ok((node, after)) => {
                lemma_token_at(src, after);
                let grown = acc.push((decimal(acc.len()), node));
                assert forall|i: int| 0 <= i < grown.len() implies reads_well(
                    (#[trigger] grown[i]).1,
                    src,
                    nest,
                ) by {
                    if i < acc.len() {
                        assert(grown[i] == acc[i]);
                    }
                }
                match token_at(src, after) {
                    Err(_) => {},
                    Ok(next) => {
                        if next.kind == TokenKind::Comma && q < next.end <= src.len() {
                            lemma_elements_read_well(src, next.end, nest, grown);
                        }
                    },
                }
            },
        }
    }
}


proof fn lemma_same_content_turns(a: Seq<FlatEntry>, b: Seq<FlatEntry>)
    requires
        same_content(a, b),
    ensures
        same_content(b, a),
{
    assert forall|i: int| 0 <= i < b.len() implies alike(#[trigger] b[i], a[i]) by {
        assert(alike(a[i], b[i]));
    }
}

proof fn lemma_between_parts(a: Seq<FlatEntry>, b: Seq<FlatEntry>, lo: u8, hi: u8)
    requires
        no_object_between(a + b, lo, hi),
    ensures
        no_object_between(a, lo, hi),
        no_object_between(b, lo, hi),
{
    let all = a + b;
    assert forall|i: int|
        0 <= i < a.len() && (#[trigger] a[i]).value_type == ValueType::Object implies a[i].depth
        <= lo || a[i].depth >= hi by {
        assert(all[i] == a[i]);
    }
    assert forall|i: int|
        0 <= i < b.len() && (#[trigger] b[i]).value_type == ValueType::Object implies b[i].depth
        <= lo || b[i].depth >= hi by {
        assert(all[a.len() + i] == b[i]);
    }
}

/// Widening one entry.
proof fn lemma_widen_one(e: FlatEntry, reached: u8, policy: Policy)
    ensures
        widen_all(seq![e], reached, policy) == match widen_entry(e, reached, policy, None) {
            Ok(more) => Ok::<Seq<FlatEntry>, ParseError>(more),
            Err(err) => Err(err),
        },
{
    let one = seq![e];
    assert(widen_entries(one, 0, reached, policy, None) == Ok::<Seq<FlatEntry>, ParseError>(
        Seq::empty(),
    ));
    match widen_entry(e, reached, policy, None) {
        Ok(more) => {
            assert(Seq::<FlatEntry>::empty() + more =~= more);
        },
        Err(_) => {},
    }
}

/// Widening the entries of a value, flattened down to one depth, gives
/// entries like those of the value flattened deeper.
proof fn lemma_widen_value(
    node: Node,
    src: Seq<u8>,
    place: Place,
    lo: Policy,
    hi: Policy,
    from: int,
    room: int,
)
    requires
        reads_well(node, src, place.depth),
        laid_out(node, from, room),
        0 <= from,
        extent(node) <= src.len(),
        0 <= place.depth,
        place.depth + room <= 255,
        deepens(lo, hi),
        no_object_between(flatten(node, src, place, lo), lo.max_depth, hi.max_depth),
    ensures
        widen_all(flatten(node, src, place, lo), lo.max_depth, hi) matches Ok(w) && same_content(
            w,
            flatten(node, src, place, hi),
        ),
    decreases node, 0nat,
{
    let r = lo.max_depth;
    let es = flatten(node, src, place, lo);
    let target = flatten(node, src, place, hi);
    match node {
        Node::Leaf { .. } => {
            assert(es =~= seq![es[0]]);
            lemma_widen_one(es[0], r, hi);
        },
        Node::Branch { object, pos, end, children } => {
            let d = place.depth;
            let raw = src.subrange(pos, end);
            let expanded = if object {
                d < r
            } else {
                lo.parse_array
            };
            if expanded {
                let header = if object {
                    object_header(place, pos, raw, lo)
                } else {
                    seq![entry_at(place, ValueType::Array(children.len() as usize), pos, None)]
                };
                let inner = flatten_children(
                    children,
                    children.len(),
                    object,
                    src,
                    place.pointer,
                    d + 1,
                    place.index,
                    lo,
                );
                let deeper = flatten_children(
                    children,
                    children.len(),
                    object,
                    src,
                    place.pointer,
                    d + 1,
                    place.index,
                    hi,
                );
                assert(es == header + inner);
                assert(target == header + deeper);
                lemma_between_parts(header, inner, r, hi.max_depth);
                lemma_widen_children(
                    children,
                    children.len(),
                    object,
                    src,
                    place.pointer,
                    d + 1,
                    place.index,
                    lo,
                    hi,
                    pos + 1,
                    room - 1,
                );
                assert(header =~= seq![header[0]]);
                lemma_widen_one(header[0], r, hi);
                lemma_widen_concat(header, inner, inner.len(), r, hi);
                let w = widen_all(inner, r, hi)->Ok_0;
                lemma_same_content_concat(header, header, w, deeper);
            } else if object && d > r {
                assert(es =~= seq![es[0]]);
                assert(es[0].depth == d);
                lemma_widen_one(es[0], r, hi);
            } else if object {
                let e = es[0];
                assert(es =~= seq![e]);
                assert(e.depth == d);
                assert(d == r);
                let again = document_at(raw, 0, (d + 1) as u8)->Ok_0;
                let others = again->children;
                let fresh = flatten_children(
                    others,
                    others.len(),
                    true,
                    raw,
                    place.pointer,
                    d + 1,
                    0,
                    hi,
                );
                let deeper = flatten_children(
                    children,
                    children.len(),
                    true,
                    src,
                    place.pointer,
                    d + 1,
                    place.index,
                    hi,
                );
                lemma_children_flatten_moved(
                    children,
                    others,
                    children.len(),
                    true,
                    src,
                    pos,
                    end,
                    place.pointer,
                    d + 1,
                    place.index,
                    0,
                    hi,
                    pos + 1,
                    room - 1,
                );
                lemma_same_content_turns(deeper, fresh);
                assert(flatten_root(again, raw, place.pointer, (d + 1) as u8, hi) == fresh);
                assert(widen_entry(e, r, hi, None) == Ok::<Seq<FlatEntry>, ParseError>(
                    seq![e] + fresh,
                ));
                lemma_widen_one(e, r, hi);
                assert(target == seq![e] + deeper);
                lemma_same_content_concat(seq![e], seq![e], fresh, deeper);
            } else {
                assert(es =~= seq![es[0]]);
                lemma_widen_one(es[0], r, hi);
            }
        },
    }
}

proof fn lemma_widen_children(
    children: Seq<(Seq<u8>, Node)>,
    n: nat,
    object: bool,
    src: Seq<u8>,
    pointer: Seq<u8>,
    depth: int,
    index: int,
    lo: Policy,
    hi: Policy,
    from: int,
    room: int,
)
    requires
        children_read_well(children, src, depth),
        children_laid_out(children, n, from, room),
        0 <= from,
        n > 0 ==> n <= children.len() && extent(children[n - 1].1) <= src.len(),
        0 <= depth,
        depth + room <= 255,
        deepens(lo, hi),
        no_object_between(
            flatten_children(children, n, object, src, pointer, depth, index, lo),
            lo.max_depth,
            hi.max_depth,
        ),
    ensures
        widen_all(
            flatten_children(children, n, object, src, pointer, depth, index, lo),
            lo.max_depth,
            hi,
        ) matches Ok(w) && same_content(
            w,
            flatten_children(children, n, object, src, pointer, depth, index, hi),
        ),
    decreases children, n,
{
    let r = lo.max_depth;
    if n > 0 {
        lemma_children_widen(children, n, from, room, room);
        lemma_child_layout(children, n, from, room, n - 1);
        if n > 1 {
            lemma_child_layout(children, n, from, room, n - 2);
        }
        let before = flatten_children(
            children,
            (n - 1) as nat,
            object,
            src,
            pointer,
            depth,
            index,
            lo,
        );
        let place = child_place(object, pointer, depth, index, children[n - 1].0, n - 1);
        let more = flatten(children[n - 1].1, src, place, lo);
        lemma_between_parts(before, more, r, hi.max_depth);
        lemma_widen_children(
            children,
            (n - 1) as nat,
            object,
            src,
            pointer,
            depth,
            index,
            lo,
            hi,
            from,
            room,
        );
        lemma_widen_value(children[n - 1].1, src, place, lo, hi, from, room);
        lemma_widen_concat(before, more, more.len(), r, hi);
        lemma_same_content_concat(
            widen_all(before, r, hi)->Ok_0,
            flatten_children(children, (n - 1) as nat, object, src, pointer, depth, index, hi),
            widen_all(more, r, hi)->Ok_0,
            flatten(children[n - 1].1, src, place, hi),
        );
    }
}

/// Widening gives what parsing deeper gives: the entries of a document
/// that was flattened down to one depth, widened to a greater depth, are
/// like the entries of the document flattened down to that depth at once,
/// one for one: the same pointers, kinds, depths and values in the same
/// order. (An index or a position may differ, since a text that is read
/// again is read from its own beginning.)
///
/// This holds where both policies keep the text of every object and treat
/// arrays alike, where the flattening starts at the document itself, and
/// where the first result left no object as text below its own depth and
/// above the greater one, which happens to an object in an array that
/// stands at the depth of the first result or below: such an object is not
/// widened.
pub proof fn law_widening_gives_what_parsing_deeper_gives(
    src: Seq<u8>,
    pos: int,
    lo: Policy,
    hi: Policy,
    prefix: Seq<u8>,
    start: u8,
)
    requires
        0 <= pos <= src.len(),
        deepens(lo, hi),
        flatten_document(src, pos, lo, prefix, None, start) is Ok,
        no_object_between(
            flatten_document(src, pos, lo, prefix, None, start)->Ok_0.0,
            lo.max_depth,
            hi.max_depth,
        ),
    ensures
        flatten_document(src, pos, hi, prefix, None, start) is Ok,
        widened(
            flatten_document(src, pos, lo, prefix, None, start)->Ok_0.0,
            lo.max_depth,
            hi,
            None,
        ) matches Ok(w) && same_content(
            w,
            flatten_document(src, pos, hi, prefix, None, start)->Ok_0.0,
        ),
{
    lemma_token_at(src, pos);
    lemma_root_layout(src, pos, start as int, start as int);
    let t = token_at(src, pos)->Ok_0;
    let root = document_at(src, pos, start)->Ok_0;
    let room = MAX_NESTING - start;
    if t.kind == TokenKind::CurlyOpen {
        lemma_members_read_well(src, t.end, start as int, Seq::empty());
        let children = root->children;
        lemma_widen_children(
            children,
            children.len(),
            true,
            src,
            prefix,
            start as int,
            0,
            lo,
            hi,
            t.start + 1,
            room,
        );
    } else {
        lemma_value_reads_well(src, pos, start as int);
        lemma_widen_value(
            root,
            src,
            Place { pointer: prefix, depth: start as int, index: 0, in_array: false },
            lo,
            hi,
            pos,
            room,
        );
    }
}


proof fn lemma_same_content_chain(a: Seq<FlatEntry>, b: Seq<FlatEntry>, c: Seq<FlatEntry>)
    requires
        same_content(a, b),
        same_content(b, c),
    ensures
        same_content(a, c),
{
    assert forall|i: int| 0 <= i < a.len() implies alike(#[trigger] a[i], c[i]) by {
        assert(alike(a[i], b[i]));
        assert(alike(b[i], c[i]));
    }
}

/// Entries that are alike widen alike.
proof fn lemma_widen_alike(
    a: Seq<FlatEntry>,
    b: Seq<FlatEntry>,
    n: nat,
    reached: u8,
    policy: Policy,
)
    requires
        same_content(a, b),
        n <= a.len(),
    ensures
        match widen_entries(a, n, reached, policy, None) {
            Ok(x) => widen_entries(b, n, reached, policy, None) matches Ok(y) && same_content(
                x,
                y,
            ),
            Err(e) => widen_entries(b, n, reached, policy, None) == Err::<
                Seq<FlatEntry>,
                ParseError,
            >(e),
        },
    decreases n,
{
    if n > 0 {
        lemma_widen_alike(a, b, (n - 1) as nat, reached, policy);
        let e = a[n - 1];
        let f = b[n - 1];
        assert(alike(e, f));
        match widen_entries(a, (n - 1) as nat, reached, policy, None) {
            Err(_) => {},
            Ok(x) => {
                let y = widen_entries(b, (n - 1) as nat, reached, policy, None)->Ok_0;
                match widen_entry(e, reached, policy, None) {
                    Err(_) => {},
                    Ok(more) => {
                        let other = widen_entry(f, reached, policy, None)->Ok_0;
                        assert(same_content(more, other)) by {
                            assert(more.len() == other.len());
                            assert forall|i: int| 0 <= i < more.len() implies alike(
                                #[trigger] more[i],
                                other[i],
                            ) by {
                                if i > 0 {
                                    assert(more[i] == other[i]);
                                }
                            }
                        }
                        lemma_same_content_concat(x, y, more, other);
                    },
                }
            },
        }
    }
}

/// Widening a parsed document leaves its pointers different from one
/// another, where widening gives what parsing deeper gives and no object
/// that the deeper parse flattens holds two members with one key or a key
/// with a slash in it.
pub proof fn law_widened_pointers_are_unique(
    src: Seq<u8>,
    pos: int,
    lo: Policy,
    hi: Policy,
    prefix: Seq<u8>,
    start: u8,
)
    requires
        0 <= pos <= src.len(),
        deepens(lo, hi),
        flatten_document(src, pos, lo, prefix, None, start) is Ok,
        no_object_between(
            flatten_document(src, pos, lo, prefix, None, start)->Ok_0.0,
            lo.max_depth,
            hi.max_depth,
        ),
        plain_root(start_point(src, pos, None, start), start, hi),
    ensures
        widened(
            flatten_document(src, pos, lo, prefix, None, start)->Ok_0.0,
            lo.max_depth,
            hi,
            None,
        ) matches Ok(w) && pointers_differ(w),
{
    law_widening_gives_what_parsing_deeper_gives(src, pos, lo, hi, prefix, start);
    law_pointers_are_unique(src, pos, hi, prefix, None, start);
    let w = widened(
        flatten_document(src, pos, lo, prefix, None, start)->Ok_0.0,
        lo.max_depth,
        hi,
        None,
    )->Ok_0;
    let deep = flatten_document(src, pos, hi, prefix, None, start)->Ok_0.0;
    assert forall|i: int, j: int| 0 <= i < j < w.len() implies (#[trigger] w[i]).pointer != (
    #[trigger] w[j]).pointer by {
        assert(alike(w[i], deep[i]));
        assert(alike(w[j], deep[j]));
    }
}

/// Widening in two steps gives what widening at once gives: a parsed
/// document widened from the depth of `a` to that of `b` and then to that
/// of `c` has entries like those of the document widened from the depth of
/// `a` to that of `c` at once, one for one, and stands at the same depth.
/// (The premises are those under which each widening gives what parsing
/// deeper gives.)
pub proof fn law_widening_in_steps_is_widening_at_once(
    src: Seq<u8>,
    pos: int,
    a: Policy,
    b: Policy,
    c: Policy,
    prefix: Seq<u8>,
    start: u8,
)
    requires
        0 <= pos <= src.len(),
        deepens(a, b),
        deepens(b, c),
        flatten_document(src, pos, a, prefix, None, start) is Ok,
        no_object_between(
            flatten_document(src, pos, a, prefix, None, start)->Ok_0.0,
            a.max_depth,
            c.max_depth,
        ),
        no_object_between(
            flatten_document(src, pos, b, prefix, None, start)->Ok_0.0,
            b.max_depth,
            c.max_depth,
        ),
    ensures
        ({
            let parsed = flatten_document(src, pos, a, prefix, None, start)->Ok_0.0;
            let once = widened(parsed, a.max_depth, c, None);
            let first = widened(parsed, a.max_depth, b, None);
            &&& once is Ok
            &&& first is Ok
            &&& widened(first->Ok_0, depth_after(a.max_depth, b), c, None) matches Ok(twice)
                && same_content(twice, once->Ok_0)
            &&& depth_after(depth_after(a.max_depth, b), c) == depth_after(a.max_depth, c)
        }),
{
    let parsed = flatten_document(src, pos, a, prefix, None, start)->Ok_0.0;
    assert(no_object_between(parsed, a.max_depth, b.max_depth));
    law_widening_gives_what_parsing_deeper_gives(src, pos, a, b, prefix, start);
    law_widening_gives_what_parsing_deeper_gives(src, pos, b, c, prefix, start);
    law_widening_gives_what_parsing_deeper_gives(src, pos, a, c, prefix, start);
    let at_b = flatten_document(src, pos, b, prefix, None, start)->Ok_0.0;
    let at_c = flatten_document(src, pos, c, prefix, None, start)->Ok_0.0;
    let first = widened(parsed, a.max_depth, b, None)->Ok_0;
    let once = widened(parsed, a.max_depth, c, None)->Ok_0;
    lemma_widen_alike(first, at_b, first.len(), b.max_depth, c);
    let twice = widened(first, b.max_depth, c, None)->Ok_0;
    let direct = widened(at_b, b.max_depth, c, None)->Ok_0;
    lemma_same_content_chain(twice, direct, at_c);
    lemma_same_content_turns(once, at_c);
    lemma_same_content_chain(twice, at_c, once);
}

/// What follows an entry when a result is widened: the entries of its
/// text, where it is deferred and holds text that can be flattened;
/// nothing else.
pub open spec fn run_of(e: FlatEntry, reached: u8, policy: Policy, start_at: Option<Seq<u8>>)
    -> Seq<FlatEntry> {
    if is_deferred(e, reached) && e.value is Some {
        match flatten_document(e.value->0, 0, policy, e.pointer, start_at, (e.depth + 1) as u8) {
            Ok((inner, _)) => inner,
            Err(_) => Seq::empty(),
        }
    } else {
        Seq::empty()
    }
}

/// Where more entries widen, fewer do, and to the beginning of the same
/// list.
proof fn lemma_widen_grows(
    entries: Seq<FlatEntry>,
    n: nat,
    m: nat,
    reached: u8,
    policy: Policy,
    start_at: Option<Seq<u8>>,
)
    requires
        n <= m <= entries.len(),
        widen_entries(entries, m, reached, policy, start_at) is Ok,
    ensures
        widen_entries(entries, n, reached, policy, start_at) matches Ok(fewer) && fewer.len()
            <= widen_entries(entries, m, reached, policy, start_at)->Ok_0.len()
            && widen_entries(entries, m, reached, policy, start_at)->Ok_0.subrange(
            0,
            fewer.len() as int,
        ) == fewer,
    decreases m - n,
{
    let whole = widen_entries(entries, m, reached, policy, start_at)->Ok_0;
    if n < m {
        lemma_widen_grows(entries, n, (m - 1) as nat, reached, policy, start_at);
        let before = widen_entries(entries, (m - 1) as nat, reached, policy, start_at)->Ok_0;
        let fewer = widen_entries(entries, n, reached, policy, start_at)->Ok_0;
        assert(whole.subrange(0, fewer.len() as int) =~= before.subrange(0, fewer.len() as int));
    } else {
        assert(whole.subrange(0, whole.len() as int) =~= whole);
    }
}

/// Widening keeps every entry, in its order, and sets the new entries in
/// runs: each entry of the result that was widened stands in the new
/// result as it was, behind the entries before it, and is followed, before
/// the next of them, by the entries of its own text and by nothing else.
pub proof fn law_widening_keeps_every_entry(
    entries: Seq<FlatEntry>,
    reached: u8,
    policy: Policy,
    start_at: Option<Seq<u8>>,
    i: int,
)
    requires
        reached < policy.max_depth,
        widened(entries, reached, policy, start_at) is Ok,
        0 <= i < entries.len(),
    ensures
        ({
            let w = widened(entries, reached, policy, start_at)->Ok_0;
            let at = widen_entries(entries, i as nat, reached, policy, start_at)->Ok_0.len();
            let next = widen_entries(entries, (i + 1) as nat, reached, policy, start_at)->Ok_0.len();
            &&& widen_entries(entries, i as nat, reached, policy, start_at) is Ok
            &&& widen_entries(entries, (i + 1) as nat, reached, policy, start_at) is Ok
            &&& at < next <= w.len()
            &&& w[at as int] == entries[i]
            &&& w.subrange(at as int + 1, next as int) == run_of(
                entries[i],
                reached,
                policy,
                start_at,
            )
        }),
{
    let w = widened(entries, reached, policy, start_at)->Ok_0;
    lemma_widen_grows(entries, (i + 1) as nat, entries.len(), reached, policy, start_at);
    lemma_widen_grows(entries, i as nat, (i + 1) as nat, reached, policy, start_at);
    let before = widen_entries(entries, i as nat, reached, policy, start_at)->Ok_0;
    let after = widen_entries(entries, (i + 1) as nat, reached, policy, start_at)->Ok_0;
    let more = widen_entry(entries[i], reached, policy, start_at)->Ok_0;
    assert(after == before + more);
    assert(more[0] == entries[i]);
    assert(w.subrange(0, after.len() as int)[before.len() as int] == w[before.len() as int]);
    assert(w.subrange(before.len() as int + 1, after.len() as int) =~= after.subrange(
        before.len() as int + 1,
        after.len() as int,
    )) by {
        assert forall|k: int| before.len() + 1 <= k < after.len() implies w[k] == after[k] by {
            assert(w.subrange(0, after.len() as int)[k] == w[k]);
        }
    }
    assert(after.subrange(before.len() as int + 1, after.len() as int) =~= more.subrange(
        1,
        more.len() as int,
    ));
    assert(more.subrange(1, more.len() as int) =~= run_of(entries[i], reached, policy, start_at));
}

} // verus!
