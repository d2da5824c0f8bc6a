use vstd::prelude::*;
use vstd::slice::slice_subrange;
use vstd::utf8::*;
use crate::arena::{alloc_str, from_utf8};
use crate::bytes::{
    decimal, extend_bytes, lemma_ascii_is_utf8, lemma_decimal_is_ascii, lemma_valid_join,
    push_decimal, text_bytes, text_of, SLASH,
};
use crate::error::{syntax_error, ParseError, SyntaxErrorKind};
use crate::flatten::{
    child_place, child_pointer, deepest, deepest_children, deepest_root, entry_at, entry_view,
    flat_view, flatten, flatten_children, flatten_root, lemma_deepest_children_prefix, lemma_flat_view_push,
    lemma_flat_view_update, lemma_flatten_children_prefix, object_header, FlatEntry, Place,
    Policy,
};
use crate::lexer::{
    lemma_token_at, lemma_token_is_text, next_token, token_at, Token, TokenKind, CURLY_CLOSE,
    SQUARE_CLOSE,
};
use crate::moved::{lemma_elements_progress, lemma_members_progress};
use crate::tree::{
    elements_from, members_from, rooted_at, unclosed, value_at, Node, MAX_NESTING,
};
use crate::{PointerKey, ValueType};

verus! {

/// Where the value that is being read stands.
pub(crate) struct Spot<'p> {
    pub path: &'p [u8],
    pub depth: u8,
    pub index: usize,
    pub in_array: bool,
}

impl<'p> Spot<'p> {
    pub(crate) open spec fn place(&self) -> Place {
        Place {
            pointer: self.path@,
            depth: self.depth as int,
            index: self.index as int,
            in_array: self.in_array,
        }
    }
}

/// What reading a value has found: where it ends, how deep it goes, and how
/// many children it has.
pub(crate) struct Walked {
    pub end: usize,
    pub deepest: u8,
    pub count: usize,
}

/// Appends the entry for the value at `spot`, with its pointer copied into
/// the arena.
fn push_entry<'r>(
    out: &mut Vec<(PointerKey<'r>, Option<String>)>,
    arena: &'r bumpalo::Bump,
    spot: &Spot,
    value_type: ValueType,
    position: usize,
    value: Option<String>,
)
    requires
        valid_utf8(spot.path@),
    ensures
        final(out)@.len() == old(out)@.len() + 1,
        flat_view(final(out)@) == flat_view(old(out)@).push(
            entry_at(spot.place(), value_type, position as int, text_bytes(value)),
        ),
{
    let text = from_utf8(spot.path).unwrap();
    let key = PointerKey {
        pointer: alloc_str(arena, text),
        value_type,
        depth: spot.depth,
        index: spot.index,
        position,
    };
    proof {
        lemma_flat_view_push(out@, (key, value));
    }
    out.push((key, value));
}

/// The pointer of the member `key` of the object at `path`.
fn member_path(path: &[u8], key: &[u8]) -> (r: Vec<u8>)
    ensures
        r@ == child_pointer(path@, key@),
        valid_utf8(path@) && valid_utf8(key@) ==> valid_utf8(r@),
{
    let mut r: Vec<u8> = Vec::new();
    extend_bytes(&mut r, path);
    r.push(SLASH);
    extend_bytes(&mut r, key);
    proof {
        assert(r@ =~= child_pointer(path@, key@));
        if valid_utf8(path@) && valid_utf8(key@) {
            lemma_ascii_is_utf8(seq![SLASH]);
            valid_utf8_concat(path@, seq![SLASH]);
            valid_utf8_concat(path@ + seq![SLASH], key@);
        }
    }
    r
}

/// The pointer of the element number `i` of the array at `path`.
fn element_path(path: &[u8], i: usize) -> (r: Vec<u8>)
    ensures
        r@ == child_pointer(path@, decimal(i as nat)),
        valid_utf8(path@) ==> valid_utf8(r@),
{
    let mut r: Vec<u8> = Vec::new();
    extend_bytes(&mut r, path);
    r.push(SLASH);
    push_decimal(&mut r, i);
    proof {
        assert(r@ =~= child_pointer(path@, decimal(i as nat)));
        if valid_utf8(path@) {
            lemma_ascii_is_utf8(seq![SLASH]);
            lemma_decimal_is_ascii(i as nat);
            lemma_ascii_is_utf8(decimal(i as nat));
            valid_utf8_concat(path@, seq![SLASH]);
            valid_utf8_concat(path@ + seq![SLASH], decimal(i as nat));
        }
    }
    r
}

/// The error for a token that stands where a closing bracket or a
/// separator was expected.
pub(crate) fn unclosed_error(t: &Token, otherwise: SyntaxErrorKind) -> (r: ParseError)
    ensures
        r == syntax_error(unclosed(t.kind, otherwise), t.start as int),
{
    let kind = match t.kind {
        TokenKind::EndOfInput => SyntaxErrorKind::UnterminatedContainer,
        _ => otherwise,
    };
    ParseError::Syntax { kind, position: t.start }
}

/// Reads the value whose first token `t` was found at or after `pos`.
/// With `emit` the entries of the value are appended to `out`; without it
/// the value is only checked and measured.
pub(crate) fn walk_token<'r>(
    src: &[u8],
    pos: usize,
    t: Token,
    nest: u8,
    emit: bool,
    spot: &Spot,
    policy: Policy,
    arena: &'r bumpalo::Bump,
    out: &mut Vec<(PointerKey<'r>, Option<String>)>,
) -> (r: Result<Walked, ParseError>)
    requires
        pos <= src@.len(),
        spot.depth <= nest,
        emit ==> valid_utf8(spot.path@),
        t.well_formed(src@),
        pos <= t.start,
        token_at(src@, pos as int) matches Ok(lexeme) && lexeme.kind == t.kind && lexeme.start
            == t.start && lexeme.end == t.end && lexeme.text == t.text(src@),
    ensures
        !emit ==> final(out)@ == old(out)@,
        match value_at(src@, pos as int, nest as int) {
            Ok((node, end)) => {
                &&& r matches Ok(w)
                &&& w.end == end
                &&& pos < end <= src@.len()
                &&& w.deepest == deepest(node, spot.depth as int)
                &&& flat_view(final(out)@) == flat_view(old(out)@) + (if emit {
                    flatten(node, src@, spot.place(), policy)
                } else {
                    Seq::empty()
                })
            },
            Err(err) => r matches Err(e) && e == err,
        },
    decreases src@.len() - pos, 0int,
{
    proof {
        lemma_token_at(src@, pos as int);
        lemma_token_is_text(src@, pos as int);
    }
    match t.kind {
        TokenKind::StringLiteral | TokenKind::Number | TokenKind::Boolean | TokenKind::Null => {
            if emit {
                let value_type = match t.kind {
                    TokenKind::StringLiteral => ValueType::String,
                    TokenKind::Number => ValueType::Number,
                    TokenKind::Boolean => ValueType::Bool,
                    _ => ValueType::Null,
                };
                let value = match t.kind {
                    TokenKind::Null => None,
                    _ => {
                        Some(text_of(t.bytes(src)))
                    },
                };
                push_entry(out, arena, spot, value_type, t.start, value);
                assert(flat_view(out@) =~= flat_view(old(out)@) + flatten(
                    value_at(src@, pos as int, nest as int)->Ok_0.0,
                    src@,
                    spot.place(),
                    policy,
                ));
            } else {
                assert(flat_view(out@) =~= flat_view(old(out)@) + Seq::<FlatEntry>::empty());
            }
            Ok(Walked { end: t.end, deepest: spot.depth, count: 0 })
        },
        TokenKind::CurlyOpen => {
            if nest >= MAX_NESTING {
                return Err(
                    ParseError::Syntax { kind: SyntaxErrorKind::DepthOverflow, position: t.start },
                );
            }
            walk_object(src, t.start, t.end, nest, emit, spot, policy, arena, out)
        },
        TokenKind::SquareOpen => {
            if nest >= MAX_NESTING {
                return Err(
                    ParseError::Syntax { kind: SyntaxErrorKind::DepthOverflow, position: t.start },
                );
            }
            walk_array(src, t.start, t.end, nest, emit, spot, policy, arena, out)
        },
        TokenKind::EndOfInput => Err(
            ParseError::Syntax {
                kind: SyntaxErrorKind::UnterminatedContainer,
                position: t.start,
            },
        ),
        _ => Err(
            ParseError::Syntax { kind: SyntaxErrorKind::UnexpectedToken, position: t.start },
        ),
    }
}

/// Reads, as a root, the value whose first token `t` was found at or after
/// `pos`, and appends its entries: their pointers begin with `prefix`, and
/// the depths are counted from `start`.
pub(crate) fn walk_root<'r>(
    src: &[u8],
    pos: usize,
    t: Token,
    nest: u8,
    child_nest: u8,
    prefix: &[u8],
    start: u8,
    policy: Policy,
    arena: &'r bumpalo::Bump,
    out: &mut Vec<(PointerKey<'r>, Option<String>)>,
) -> (r: Result<Walked, ParseError>)
    requires
        pos <= src@.len(),
        valid_utf8(prefix@),
        start <= nest,
        start <= child_nest,
        t.well_formed(src@),
        pos <= t.start,
        token_at(src@, pos as int) matches Ok(lexeme) && lexeme.kind == t.kind && lexeme.start
            == t.start && lexeme.end == t.end && lexeme.text == t.text(src@),
    ensures
        match rooted_at(src@, pos as int, nest as int, child_nest as int) {
            Ok((node, end)) => {
                &&& r matches Ok(w)
                &&& w.end == end
                &&& pos < end <= src@.len()
                &&& w.deepest == deepest_root(node, start)
                &&& flat_view(final(out)@) == flat_view(old(out)@) + flatten_root(
                    node,
                    src@,
                    prefix@,
                    start,
                    policy,
                )
            },
            Err(err) => r matches Err(e) && e == err,
        },
{
    proof {
        lemma_token_at(src@, pos as int);
    }
    if t.kind == TokenKind::CurlyOpen {
        walk_members(src, t.end, child_nest, true, prefix, start, 0, start, policy, arena, out)
    } else {
        let spot = Spot { path: prefix, depth: start, index: 0, in_array: false };
        walk_token(src, pos, t, nest, true, &spot, policy, arena, out)
    }
}

/// Reads the object whose opening bracket stands at `start`, on from
/// `open`, the place after that bracket.
pub(crate) fn walk_object<'r>(
    src: &[u8],
    start: usize,
    open: usize,
    nest: u8,
    emit: bool,
    spot: &Spot,
    policy: Policy,
    arena: &'r bumpalo::Bump,
    out: &mut Vec<(PointerKey<'r>, Option<String>)>,
) -> (r: Result<Walked, ParseError>)
    requires
        start < open <= src@.len(),
        valid_utf8(src@.subrange(start as int, open as int)),
        spot.depth <= nest < MAX_NESTING,
        emit ==> valid_utf8(spot.path@),
    ensures
        !emit ==> final(out)@ == old(out)@,
        match members_from(src@, open as int, nest + 1, Seq::empty()) {
            Ok((children, end)) => {
                let node = Node::Branch { object: true, pos: start as int, end, children };
                &&& r matches Ok(w)
                &&& w.end == end
                &&& open < end <= src@.len()
                &&& w.deepest == deepest(node, spot.depth as int)
                &&& flat_view(final(out)@) == flat_view(old(out)@) + (if emit {
                    flatten(node, src@, spot.place(), policy)
                } else {
                    Seq::empty()
                })
            },
            Err(err) => r matches Err(e) && e == err,
        },
    decreases src@.len() - open, 2int,
{
    let ghost before = flat_view(out@);
    if emit && spot.depth < policy.max_depth {
        let slot = out.len();
        if policy.keep_object_raw_data || spot.in_array {
            push_entry(out, arena, spot, ValueType::Object, start, None);
        }
        let ghost headed = flat_view(out@);
        let w = match walk_members(
            src,
            open,
            nest + 1,
            true,
            spot.path,
            spot.depth + 1,
            spot.index,
            spot.depth,
            policy,
            arena,
            out,
        ) {
            Ok(w) => w,
            Err(e) => {
                return Err(e);
            },
        };
        let ghost children = members_from(src@, open as int, nest + 1, Seq::empty())->Ok_0.0;
        let ghost inner = flatten_children(
            children,
            children.len(),
            true,
            src@,
            spot.path@,
            spot.depth + 1,
            spot.index as int,
            policy,
        );
        assert(flat_view(out@) == headed + inner);
        if policy.keep_object_raw_data {
            proof {
                lemma_members_progress(src@, open as int, nest + 1, Seq::empty());
                lemma_valid_join(src@, start as int, open as int, w.end as int);
            }
            let raw = text_of(slice_subrange(src, start, w.end));
            assert(out@.len() == flat_view(out@).len());
            let pointer = out[slot].0.pointer;
            let key = PointerKey {
                pointer,
                value_type: ValueType::Object,
                depth: spot.depth,
                index: spot.index,
                position: start,
            };
            proof {
                lemma_flat_view_update(out@, slot as int, (key, Some(raw)));
                assert(entry_view(out@[slot as int]) == flat_view(out@)[slot as int]);
            }
            out.set(slot, (key, Some(raw)));
            assert(flat_view(out@) =~= before + (object_header(
                spot.place(),
                start as int,
                src@.subrange(start as int, w.end as int),
                policy,
            ) + inner));
        } else {
            assert(flat_view(out@) =~= before + (object_header(
                spot.place(),
                start as int,
                src@.subrange(start as int, w.end as int),
                policy,
            ) + inner));
        }
        Ok(w)
    } else {
        let w = match walk_members(
            src,
            open,
            nest + 1,
            false,
            spot.path,
            spot.depth + 1,
            spot.index,
            spot.depth,
            policy,
            arena,
            out,
        ) {
            Ok(w) => w,
            Err(e) => {
                return Err(e);
            },
        };
        if emit {
            proof {
                lemma_members_progress(src@, open as int, nest + 1, Seq::empty());
                lemma_valid_join(src@, start as int, open as int, w.end as int);
            }
            let raw = text_of(slice_subrange(src, start, w.end));
            push_entry(out, arena, spot, ValueType::Object, start, Some(raw));
            assert(flat_view(out@) =~= before + seq![
                entry_at(
                    spot.place(),
                    ValueType::Object,
                    start as int,
                    Some(src@.subrange(start as int, w.end as int)),
                ),
            ]);
        } else {
            assert(flat_view(out@) =~= before + Seq::<FlatEntry>::empty());
        }
        Ok(w)
    }
}

/// Reads the array whose opening bracket stands at `start`, on from
/// `open`, the place after that bracket.
pub(crate) fn walk_array<'r>(
    src: &[u8],
    start: usize,
    open: usize,
    nest: u8,
    emit: bool,
    spot: &Spot,
    policy: Policy,
    arena: &'r bumpalo::Bump,
    out: &mut Vec<(PointerKey<'r>, Option<String>)>,
) -> (r: Result<Walked, ParseError>)
    requires
        start < open <= src@.len(),
        valid_utf8(src@.subrange(start as int, open as int)),
        spot.depth <= nest < MAX_NESTING,
        emit ==> valid_utf8(spot.path@),
    ensures
        !emit ==> final(out)@ == old(out)@,
        match elements_from(src@, open as int, nest + 1, Seq::empty()) {
            Ok((children, end)) => {
                let node = Node::Branch { object: false, pos: start as int, end, children };
                &&& r matches Ok(w)
                &&& w.end == end
                &&& open < end <= src@.len()
                &&& w.deepest == deepest(node, spot.depth as int)
                &&& flat_view(final(out)@) == flat_view(old(out)@) + (if emit {
                    flatten(node, src@, spot.place(), policy)
                } else {
                    Seq::empty()
                })
            },
            Err(err) => r matches Err(e) && e == err,
        },
    decreases src@.len() - open, 2int,
{
    let ghost before = flat_view(out@);
    if emit && policy.parse_array {
        let slot = out.len();
        push_entry(out, arena, spot, ValueType::Array(0), start, None);
        let ghost headed = flat_view(out@);
        let w = match walk_elements(
            src,
            open,
            nest + 1,
            true,
            spot.path,
            spot.depth + 1,
            spot.depth,
            policy,
            arena,
            out,
        ) {
            Ok(w) => w,
            Err(e) => {
                return Err(e);
            },
        };
        let ghost children = elements_from(src@, open as int, nest + 1, Seq::empty())->Ok_0.0;
        proof {
            lemma_elements_index(
                children,
                children.len(),
                src@,
                spot.path@,
                spot.depth + 1,
                spot.index as int,
                policy,
            );
        }
        let ghost inner = flatten_children(
            children,
            children.len(),
            false,
            src@,
            spot.path@,
            spot.depth + 1,
            spot.index as int,
            policy,
        );
        assert(flat_view(out@) == headed + inner);
        assert(out@.len() == flat_view(out@).len());
        let pointer = out[slot].0.pointer;
        let key = PointerKey {
            pointer,
            value_type: ValueType::Array(w.count),
            depth: spot.depth,
            index: spot.index,
            position: start,
        };
        proof {
            lemma_flat_view_update(out@, slot as int, (key, None));
            assert(entry_view(out@[slot as int]) == flat_view(out@)[slot as int]);
        }
        out.set(slot, (key, None));
        assert(flat_view(out@) =~= before + (seq![
            entry_at(spot.place(), ValueType::Array(children.len() as usize), start as int, None),
        ] + inner));
        Ok(w)
    } else {
        let w = match walk_elements(
            src,
            open,
            nest + 1,
            false,
            spot.path,
            spot.depth + 1,
            spot.depth,
            policy,
            arena,
            out,
        ) {
            Ok(w) => w,
            Err(e) => {
                return Err(e);
            },
        };
        if emit {
            proof {
                lemma_elements_progress(src@, open as int, nest + 1, Seq::empty());
                lemma_valid_join(src@, start as int, open as int, w.end as int);
            }
            let raw = text_of(slice_subrange(src, start, w.end));
            push_entry(out, arena, spot, ValueType::Array(w.count), start, Some(raw));
            assert(flat_view(out@) =~= before + seq![
                entry_at(
                    spot.place(),
                    ValueType::Array(w.count),
                    start as int,
                    Some(src@.subrange(start as int, w.end as int)),
                ),
            ]);
        } else {
            assert(flat_view(out@) =~= before + Seq::<FlatEntry>::empty());
        }
        Ok(w)
    }
}

/// Reads the members of an object on from `pos`, the place after its
/// opening bracket. `path` and `index` are those of the object, `depth` and
/// `nest` those of its members.
pub(crate) fn walk_members<'r>(
    src: &[u8],
    pos: usize,
    nest: u8,
    emit: bool,
    path: &[u8],
    depth: u8,
    index: usize,
    floor: u8,
    policy: Policy,
    arena: &'r bumpalo::Bump,
    out: &mut Vec<(PointerKey<'r>, Option<String>)>,
) -> (r: Result<Walked, ParseError>)
    requires
        pos <= src@.len(),
        depth <= nest,
        emit ==> valid_utf8(path@),
    ensures
        !emit ==> final(out)@ == old(out)@,
        match members_from(src@, pos as int, nest as int, Seq::empty()) {
            Ok((children, end)) => {
                &&& r matches Ok(w)
                &&& w.end == end
                &&& pos < end <= src@.len()
                &&& src@[end - 1] == CURLY_CLOSE
                &&& w.count == children.len()
                &&& w.deepest == deepest_children(
                    children,
                    children.len(),
                    depth as int,
                    floor as int,
                )
                &&& flat_view(final(out)@) == flat_view(old(out)@) + (if emit {
                    flatten_children(
                        children,
                        children.len(),
                        true,
                        src@,
                        path@,
                        depth as int,
                        index as int,
                        policy,
                    )
                } else {
                    Seq::empty()
                })
            },
            Err(err) => r matches Err(e) && e == err,
        },
    decreases src@.len() - pos, 1int,
{
    let ghost before = flat_view(out@);
    let mut cur: usize = pos;
    let mut count: usize = 0;
    let mut deepest_seen: u8 = floor;
    let ghost mut acc: Seq<(Seq<u8>, Node)> = Seq::empty();
    assert(flat_view(out@) =~= before + Seq::<FlatEntry>::empty());
    loop
        invariant
            pos <= cur <= src@.len(),
            depth <= nest,
            emit ==> valid_utf8(path@),
            before == flat_view(old(out)@),
            !emit ==> out@ == old(out)@,
            members_from(src@, pos as int, nest as int, Seq::empty()) == members_from(
                src@,
                cur as int,
                nest as int,
                acc,
            ),
            count == acc.len(),
            count <= cur - pos,
            deepest_seen == deepest_children(acc, acc.len(), depth as int, floor as int),
            flat_view(out@) == before + (if emit {
                flatten_children(acc, acc.len(), true, src@, path@, depth as int, index as int, policy)
            } else {
                Seq::empty()
            }),
        decreases src@.len() - cur,
    {
        proof {
            lemma_token_at(src@, cur as int);
        }
        let key = match next_token(src, cur) {
            Ok(t) => t,
            Err(e) => {
                return Err(ParseError::Lexical(e));
            },
        };
        if key.kind == TokenKind::CurlyClose && count == 0 {
            return Ok(Walked { end: key.end, deepest: deepest_seen, count });
        }
        if key.kind != TokenKind::StringLiteral {
            return Err(unclosed_error(&key, SyntaxErrorKind::UnexpectedToken));
        }
        proof {
            lemma_token_at(src@, key.end as int);
        }
        let colon = match next_token(src, key.end) {
            Ok(t) => t,
            Err(e) => {
                return Err(ParseError::Lexical(e));
            },
        };
        if colon.kind != TokenKind::Colon {
            return Err(unclosed_error(&colon, SyntaxErrorKind::MissingColon));
        }
        let first = match next_token(src, colon.end) {
            Ok(t) => t,
            Err(e) => {
                return Err(ParseError::Lexical(e));
            },
        };
        let child_path = if emit {
            member_path(path, key.bytes(src))
        } else {
            Vec::new()
        };
        let child = Spot { path: child_path.as_slice(), depth, index, in_array: false };
        let ghost entries_before = flat_view(out@);
        let w = match walk_token(src, colon.end, first, nest, emit, &child, policy, arena, out) {
            Ok(w) => w,
            Err(e) => {
                return Err(e);
            },
        };
        proof {
            lemma_token_at(src@, w.end as int);
        }
        let after = match next_token(src, w.end) {
            Ok(t) => t,
            Err(e) => {
                return Err(ParseError::Lexical(e));
            },
        };
        proof {
            let node = value_at(src@, colon.end as int, nest as int)->Ok_0.0;
            let grown = acc.push((key.text(src@), node));
            lemma_flatten_children_prefix(
                grown,
                acc,
                acc.len(),
                true,
                src@,
                path@,
                depth as int,
                index as int,
                policy,
            );
            lemma_deepest_children_prefix(grown, acc, acc.len(), depth as int, floor as int);
            if emit {
                assert(child.place() == child_place(
                    true,
                    path@,
                    depth as int,
                    index as int,
                    key.text(src@),
                    acc.len() as int,
                ));
                assert(flat_view(out@) =~= before + flatten_children(
                    grown,
                    grown.len(),
                    true,
                    src@,
                    path@,
                    depth as int,
                    index as int,
                    policy,
                ));
            } else {
                assert(flat_view(out@) =~= before + Seq::<FlatEntry>::empty());
            }
            acc = grown;
        }
        count = count + 1;
        if w.deepest > deepest_seen {
            deepest_seen = w.deepest;
        }
        if after.kind == TokenKind::CurlyClose {
            return Ok(Walked { end: after.end, deepest: deepest_seen, count });
        }
        if after.kind != TokenKind::Comma {
            return Err(unclosed_error(&after, SyntaxErrorKind::MissingComma));
        }
        cur = after.end;
    }
}

/// Reads the elements of an array on from `pos`, the place after its
/// opening bracket. `path` is that of the array, `depth` and `nest` are
/// those of its elements.
pub(crate) fn walk_elements<'r>(
    src: &[u8],
    pos: usize,
    nest: u8,
    emit: bool,
    path: &[u8],
    depth: u8,
    floor: u8,
    policy: Policy,
    arena: &'r bumpalo::Bump,
    out: &mut Vec<(PointerKey<'r>, Option<String>)>,
) -> (r: Result<Walked, ParseError>)
    requires
        pos <= src@.len(),
        depth <= nest,
        emit ==> valid_utf8(path@),
    ensures
        !emit ==> final(out)@ == old(out)@,
        match elements_from(src@, pos as int, nest as int, Seq::empty()) {
            Ok((children, end)) => {
                &&& r matches Ok(w)
                &&& w.end == end
                &&& pos < end <= src@.len()
                &&& src@[end - 1] == SQUARE_CLOSE
                &&& w.count == children.len()
                &&& w.deepest == deepest_children(
                    children,
                    children.len(),
                    depth as int,
                    floor as int,
                )
                &&& flat_view(final(out)@) == flat_view(old(out)@) + (if emit {
                    flatten_children(
                        children,
                        children.len(),
                        false,
                        src@,
                        path@,
                        depth as int,
                        0,
                        policy,
                    )
                } else {
                    Seq::empty()
                })
            },
            Err(err) => r matches Err(e) && e == err,
        },
    decreases src@.len() - pos, 1int,
{
    let ghost before = flat_view(out@);
    let mut cur: usize = pos;
    let mut count: usize = 0;
    let mut deepest_seen: u8 = floor;
    let ghost mut acc: Seq<(Seq<u8>, Node)> = Seq::empty();
    assert(flat_view(out@) =~= before + Seq::<FlatEntry>::empty());
    loop
        invariant
            pos <= cur <= src@.len(),
            depth <= nest,
            emit ==> valid_utf8(path@),
            before == flat_view(old(out)@),
            !emit ==> out@ == old(out)@,
            elements_from(src@, pos as int, nest as int, Seq::empty()) == elements_from(
                src@,
                cur as int,
                nest as int,
                acc,
            ),
            count == acc.len(),
            count <= cur - pos,
            deepest_seen == deepest_children(acc, acc.len(), depth as int, floor as int),
            flat_view(out@) == before + (if emit {
                flatten_children(acc, acc.len(), false, src@, path@, depth as int, 0, policy)
            } else {
                Seq::empty()
            }),
        decreases src@.len() - cur,
    {
        proof {
            lemma_token_at(src@, cur as int);
        }
        let first = match next_token(src, cur) {
            Ok(t) => t,
            Err(e) => {
                return Err(ParseError::Lexical(e));
            },
        };
        if count == 0 && first.kind == TokenKind::SquareClose {
            return Ok(Walked { end: first.end, deepest: deepest_seen, count });
        }
        let child_path = if emit {
            element_path(path, count)
        } else {
            Vec::new()
        };
        let child = Spot { path: child_path.as_slice(), depth, index: count, in_array: true };
        let w = match walk_token(src, cur, first, nest, emit, &child, policy, arena, out) {
            Ok(w) => w,
            Err(e) => {
                return Err(e);
            },
        };
        proof {
            lemma_token_at(src@, w.end as int);
        }
        let after = match next_token(src, w.end) {
            Ok(t) => t,
            Err(e) => {
                return Err(ParseError::Lexical(e));
            },
        };
        proof {
            let node = value_at(src@, cur as int, nest as int)->Ok_0.0;
            let grown = acc.push((decimal(acc.len()), node));
            lemma_flatten_children_prefix(
                grown,
                acc,
                acc.len(),
                false,
                src@,
                path@,
                depth as int,
                0,
                policy,
            );
            lemma_deepest_children_prefix(grown, acc, acc.len(), depth as int, floor as int);
            if emit {
                assert(child.place() == child_place(
                    false,
                    path@,
                    depth as int,
                    0,
                    decimal(acc.len()),
                    acc.len() as int,
                ));
                assert(flat_view(out@) =~= before + flatten_children(
                    grown,
                    grown.len(),
                    false,
                    src@,
                    path@,
                    depth as int,
                    0,
                    policy,
                ));
            } else {
                assert(flat_view(out@) =~= before + Seq::<FlatEntry>::empty());
            }
            acc = grown;
        }
        count = count + 1;
        if w.deepest > deepest_seen {
            deepest_seen = w.deepest;
        }
        if after.kind == TokenKind::SquareClose {
            return Ok(Walked { end: after.end, deepest: deepest_seen, count });
        }
        if after.kind != TokenKind::Comma {
            return Err(unclosed_error(&after, SyntaxErrorKind::MissingComma));
        }
        cur = after.end;
    }
}

/// The entries of the elements of an array do not depend on the index that
/// the array carries.
pub proof fn lemma_elements_index(
    children: Seq<(Seq<u8>, Node)>,
    n: nat,
    src: Seq<u8>,
    pointer: Seq<u8>,
    depth: int,
    index: int,
    policy: Policy,
)
    ensures
        flatten_children(children, n, false, src, pointer, depth, index, policy)
            == flatten_children(children, n, false, src, pointer, depth, 0, policy),
    decreases n,
{
    if n > 0 && n <= children.len() {
        lemma_elements_index(children, (n - 1) as nat, src, pointer, depth, index, policy);
        assert(child_place(false, pointer, depth, index, children[n - 1].0, n - 1) == child_place(
            false,
            pointer,
            depth,
            0,
            children[n - 1].0,
            n - 1,
        ));
    }
}

} // verus!
