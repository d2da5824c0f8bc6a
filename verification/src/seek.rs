use vstd::prelude::*;
use vstd::utf8::valid_utf8;
use crate::bytes::{bytes_eq, decimal, push_decimal, SLASH};
use crate::error::{ParseError, SyntaxErrorKind};
use crate::flatten::{deepest_root, flat_view, flatten_root, FlatEntry, Policy};
use crate::lexer::{lemma_token_at, next_token, token_at, Token, TokenKind};
use crate::tree::{
    elements_from, first_child, lemma_first_child_prefix, locate, locate_among, members_from,
    segments_from, split_pointer, value_at, Node, MAX_NESTING,
};
use crate::walk::{unclosed_error, walk_root, walk_token, Spot};
use crate::PointerKey;

verus! {

/// What looking for the start of the flattening has found: where the value
/// that was searched ends, whether the start lies in it, and how deep the
/// value at the start goes.
pub(crate) struct Sought {
    pub end: usize,
    pub found: bool,
    pub deepest: u8,
}

/// The segments as sequences of bytes.
pub open spec fn keys_of(segments: Seq<Vec<u8>>) -> Seq<Seq<u8>> {
    Seq::new(segments.len(), |i: int| segments[i]@)
}

/// The entries of the value at the start, if there is one.
pub open spec fn sought_entries(
    target: Option<Node>,
    src: Seq<u8>,
    prefix: Seq<u8>,
    start: u8,
    policy: Policy,
) -> Seq<FlatEntry> {
    match target {
        Some(node) => flatten_root(node, src, prefix, start, policy),
        None => Seq::empty(),
    }
}

/// How deep the value at the start goes; `start` where there is none.
pub open spec fn sought_depth(target: Option<Node>, start: u8) -> int {
    match target {
        Some(node) => deepest_root(node, start),
        None => start as int,
    }
}

/// Cuts a pointer into its segments.
pub(crate) fn split_segments(pointer: &[u8]) -> (r: Option<Vec<Vec<u8>>>)
    ensures
        match split_pointer(pointer@) {
            Some(keys) => r matches Some(v) && keys_of(v@) == keys,
            None => r is None,
        },
{
    let mut done: Vec<Vec<u8>> = Vec::new();
    if pointer.len() == 0 {
        assert(keys_of(done@) =~= Seq::<Seq<u8>>::empty());
        return Some(done);
    }
    if pointer[0] != SLASH {
        return None;
    }
    let mut current: Vec<u8> = Vec::new();
    let mut i: usize = 1;
    assert(keys_of(done@) =~= Seq::<Seq<u8>>::empty());
    while i < pointer.len()
        invariant
            1 <= i <= pointer@.len(),
            segments_from(pointer@, 1, Seq::empty(), Seq::empty()) == segments_from(
                pointer@,
                i as int,
                current@,
                keys_of(done@),
            ),
        decreases pointer@.len() - i,
    {
        let b = pointer[i];
        if b == SLASH {
            assert(keys_of(done@.push(current)) =~= keys_of(done@).push(current@));
            done.push(current);
            current = Vec::new();
        } else {
            current.push(b);
        }
        i += 1;
    }
    assert(keys_of(done@.push(current)) =~= keys_of(done@).push(current@));
    done.push(current);
    Some(done)
}

/// Looks, in the value whose first token `t` was found at or after `pos`,
/// for the value that the segments from number `at` on lead to, and
/// appends the entries of that value, flattened as a root. What is passed
/// over on the way is checked as any value is.
pub(crate) fn seek_token<'r>(
    src: &[u8],
    pos: usize,
    t: Token,
    nest: u8,
    segments: &Vec<Vec<u8>>,
    at: usize,
    prefix: &[u8],
    start: u8,
    policy: Policy,
    arena: &'r bumpalo::Bump,
    out: &mut Vec<(PointerKey<'r>, Option<String>)>,
) -> (r: Result<Sought, ParseError>)
    requires
        pos <= src@.len(),
        valid_utf8(prefix@),
        start <= nest,
        at <= segments@.len(),
        t.well_formed(src@),
        pos <= t.start,
        token_at(src@, pos as int) matches Ok(lexeme) && lexeme.kind == t.kind && lexeme.start
            == t.start && lexeme.end == t.end && lexeme.text == t.text(src@),
    ensures
        match value_at(src@, pos as int, nest as int) {
            Ok((node, end)) => {
                let target = locate(node, keys_of(segments@), at as nat);
                &&& r matches Ok(s)
                &&& s.end == end
                &&& pos < end <= src@.len()
                &&& s.found == (target is Some)
                &&& s.deepest == sought_depth(target, start)
                &&& flat_view(final(out)@) == flat_view(old(out)@) + sought_entries(
                    target,
                    src@,
                    prefix@,
                    start,
                    policy,
                )
            },
            Err(err) => r matches Err(e) && e == err,
        },
    decreases src@.len() - pos, 0int,
{
    proof {
        lemma_token_at(src@, pos as int);
    }
    let container = match t.kind {
        TokenKind::CurlyOpen => true,
        TokenKind::SquareOpen => true,
        _ => false,
    };
    if container && nest >= MAX_NESTING {
        return Err(
            ParseError::Syntax { kind: SyntaxErrorKind::DepthOverflow, position: t.start },
        );
    }
    if at >= segments.len() {
        let child_nest: u8 = if nest < MAX_NESTING {
            nest + 1
        } else {
            nest
        };
        match walk_root(src, pos, t, nest, child_nest, prefix, start, policy, arena, out) {
            Ok(w) => Ok(Sought { end: w.end, found: true, deepest: w.deepest }),
            Err(e) => Err(e),
        }
    } else {
        match t.kind {
            TokenKind::CurlyOpen => seek_members(
                src,
                t.end,
                nest + 1,
                segments,
                at,
                prefix,
                start,
                policy,
                arena,
                out,
            ),
            TokenKind::SquareOpen => seek_elements(
                src,
                t.end,
                nest + 1,
                segments,
                at,
                prefix,
                start,
                policy,
                arena,
                out,
            ),
            TokenKind::StringLiteral | TokenKind::Number | TokenKind::Boolean | TokenKind::Null => {
                assert(flat_view(out@) =~= flat_view(old(out)@) + Seq::<FlatEntry>::empty());
                Ok(Sought { end: t.end, found: false, deepest: start })
            },
            TokenKind::EndOfInput => Err(
                ParseError::Syntax {
                    kind: SyntaxErrorKind::UnterminatedContainer,
                    position: t.start,
                },
            ),
            _ => Err(
                ParseError::Syntax { kind: SyntaxErrorKind::UnexpectedToken, position: t.start },
            ),
        }
    }
}

/// Looks among the members of an object, on from `pos`, the place after
/// its opening bracket.
pub(crate) fn seek_members<'r>(
    src: &[u8],
    pos: usize,
    nest: u8,
    segments: &Vec<Vec<u8>>,
    at: usize,
    prefix: &[u8],
    start: u8,
    policy: Policy,
    arena: &'r bumpalo::Bump,
    out: &mut Vec<(PointerKey<'r>, Option<String>)>,
) -> (r: Result<Sought, ParseError>)
    requires
        pos <= src@.len(),
        valid_utf8(prefix@),
        start <= nest,
        at < segments@.len(),
    ensures
        match members_from(src@, pos as int, nest as int, Seq::empty()) {
            Ok((children, end)) => {
                let target = locate_among(
                    children,
                    children.len(),
                    keys_of(segments@),
                    at as nat,
                );
                &&& r matches Ok(s)
                &&& s.end == end
                &&& pos < end <= src@.len()
                &&& s.found == (target is Some)
                &&& s.deepest == sought_depth(target, start)
                &&& flat_view(final(out)@) == flat_view(old(out)@) + sought_entries(
                    target,
                    src@,
                    prefix@,
                    start,
                    policy,
                )
            },
            Err(err) => r matches Err(e) && e == err,
        },
    decreases src@.len() - pos, 1int,
{
    let ghost before = flat_view(out@);
    let ghost keys = keys_of(segments@);
    let total = segments.len();
    let mut cur: usize = pos;
    let mut count: usize = 0;
    let mut seen = false;
    let mut found = false;
    let mut deepest_seen: u8 = start;
    let ghost mut acc: Seq<(Seq<u8>, Node)> = Seq::empty();
    assert(flat_view(out@) =~= before + Seq::<FlatEntry>::empty());
    loop
        invariant
            pos <= cur <= src@.len(),
            valid_utf8(prefix@),
            start <= nest,
            at < segments@.len(),
            total == segments@.len(),
            keys == keys_of(segments@),
            before == flat_view(old(out)@),
            members_from(src@, pos as int, nest as int, Seq::empty()) == members_from(
                src@,
                cur as int,
                nest as int,
                acc,
            ),
            count == acc.len(),
            count <= cur - pos,
            seen == (first_child(acc, keys[at as int], acc.len()) is Some),
            found == (locate_among(acc, acc.len(), keys, at as nat) is Some),
            deepest_seen == sought_depth(locate_among(acc, acc.len(), keys, at as nat), start),
            flat_view(out@) == before + sought_entries(
                locate_among(acc, acc.len(), keys, at as nat),
                src@,
                prefix@,
                start,
                policy,
            ),
        decreases src@.len() - cur,
    {
        proof {
            lemma_token_at(src@, cur as int);
        }
        let key = match next_token(src, cur) {
            Ok(t) => t,
            Err(e) => {
                return Err(ParseError::Lexical(e));
            },
        };
        if key.kind == TokenKind::CurlyClose && count == 0 {
            return Ok(Sought { end: key.end, found, deepest: deepest_seen });
        }
        if key.kind != TokenKind::StringLiteral {
            return Err(unclosed_error(&key, SyntaxErrorKind::UnexpectedToken));
        }
        proof {
            lemma_token_at(src@, key.end as int);
        }
        let colon = match next_token(src, key.end) {
            Ok(t) => t,
            Err(e) => {
                return Err(ParseError::Lexical(e));
            },
        };
        if colon.kind != TokenKind::Colon {
            return Err(unclosed_error(&colon, SyntaxErrorKind::MissingColon));
        }
        let first = match next_token(src, colon.end) {
            Ok(t) => t,
            Err(e) => {
                return Err(ParseError::Lexical(e));
            },
        };
        let hit = !seen && bytes_eq(key.bytes(src), segments[at].as_slice());
        let child_end: usize;
        if hit {
            let s = match seek_token(
                src,
                colon.end,
                first,
                nest,
                segments,
                at + 1,
                prefix,
                start,
                policy,
                arena,
                out,
            ) {
                Ok(s) => s,
                Err(e) => {
                    return Err(e);
                },
            };
            seen = true;
            found = s.found;
            deepest_seen = s.deepest;
            child_end = s.end;
        } else {
            let spot = Spot { path: prefix, depth: start, index: 0, in_array: false };
            let w = match walk_token(src, colon.end, first, nest, false, &spot, policy, arena, out) {
                Ok(w) => w,
                Err(e) => {
                    return Err(e);
                },
            };
            child_end = w.end;
        }
        proof {
            lemma_token_at(src@, child_end as int);
        }
        let after = match next_token(src, child_end) {
            Ok(t) => t,
            Err(e) => {
                return Err(ParseError::Lexical(e));
            },
        };
        proof {
            let node = value_at(src@, colon.end as int, nest as int)->Ok_0.0;
            let grown = acc.push((key.text(src@), node));
            lemma_first_child_prefix(grown, acc, keys[at as int], acc.len());
            assert(keys[at as int] == segments@[at as int]@);
            acc = grown;
        }
        count = count + 1;
        if after.kind == TokenKind::CurlyClose {
            return Ok(Sought { end: after.end, found, deepest: deepest_seen });
        }
        if after.kind != TokenKind::Comma {
            return Err(unclosed_error(&after, SyntaxErrorKind::MissingComma));
        }
        cur = after.end;
    }
}

/// Looks among the elements of an array, on from `pos`, the place after
/// its opening bracket.
pub(crate) fn seek_elements<'r>(
    src: &[u8],
    pos: usize,
    nest: u8,
    segments: &Vec<Vec<u8>>,
    at: usize,
    prefix: &[u8],
    start: u8,
    policy: Policy,
    arena: &'r bumpalo::Bump,
    out: &mut Vec<(PointerKey<'r>, Option<String>)>,
) -> (r: Result<Sought, ParseError>)
    requires
        pos <= src@.len(),
        valid_utf8(prefix@),
        start <= nest,
        at < segments@.len(),
    ensures
        match elements_from(src@, pos as int, nest as int, Seq::empty()) {
            Ok((children, end)) => {
                let target = locate_among(
                    children,
                    children.len(),
                    keys_of(segments@),
                    at as nat,
                );
                &&& r matches Ok(s)
                &&& s.end == end
                &&& pos < end <= src@.len()
                &&& s.found == (target is Some)
                &&& s.deepest == sought_depth(target, start)
                &&& flat_view(final(out)@) == flat_view(old(out)@) + sought_entries(
                    target,
                    src@,
                    prefix@,
                    start,
                    policy,
                )
            },
            Err(err) => r matches Err(e) && e == err,
        },
    decreases src@.len() - pos, 1int,
{
    let ghost before = flat_view(out@);
    let ghost keys = keys_of(segments@);
    let total = segments.len();
    let mut cur: usize = pos;
    let mut count: usize = 0;
    let mut seen = false;
    let mut found = false;
    let mut deepest_seen: u8 = start;
    let ghost mut acc: Seq<(Seq<u8>, Node)> = Seq::empty();
    assert(flat_view(out@) =~= before + Seq::<FlatEntry>::empty());
    loop
        invariant
            pos <= cur <= src@.len(),
            valid_utf8(prefix@),
            start <= nest,
            at < segments@.len(),
            total == segments@.len(),
            keys == keys_of(segments@),
            before == flat_view(old(out)@),
            elements_from(src@, pos as int, nest as int, Seq::empty()) == elements_from(
                src@,
                cur as int,
                nest as int,
                acc,
            ),
            count == acc.len(),
            count <= cur - pos,
            seen == (first_child(acc, keys[at as int], acc.len()) is Some),
            found == (locate_among(acc, acc.len(), keys, at as nat) is Some),
            deepest_seen == sought_depth(locate_among(acc, acc.len(), keys, at as nat), start),
            flat_view(out@) == before + sought_entries(
                locate_among(acc, acc.len(), keys, at as nat),
                src@,
                prefix@,
                start,
                policy,
            ),
        decreases src@.len() - cur,
    {
        proof {
            lemma_token_at(src@, cur as int);
        }
        let first = match next_token(src, cur) {
            Ok(t) => t,
            Err(e) => {
                return Err(ParseError::Lexical(e));
            },
        };
        if count == 0 && first.kind == TokenKind::SquareClose {
            return Ok(Sought { end: first.end, found, deepest: deepest_seen });
        }
        let mut digits: Vec<u8> = Vec::new();
        if !seen {
            push_decimal(&mut digits, count);
        }
        let hit = !seen && bytes_eq(digits.as_slice(), segments[at].as_slice());
        let child_end: usize;
        if hit {
            let s = match seek_token(
                src,
                cur,
                first,
                nest,
                segments,
                at + 1,
                prefix,
                start,
                policy,
                arena,
                out,
            ) {
                Ok(s) => s,
                Err(e) => {
                    return Err(e);
                },
            };
            seen = true;
            found = s.found;
            deepest_seen = s.deepest;
            child_end = s.end;
        } else {
            let spot = Spot { path: prefix, depth: start, index: 0, in_array: false };
            let w = match walk_token(src, cur, first, nest, false, &spot, policy, arena, out) {
                Ok(w) => w,
                Err(e) => {
                    return Err(e);
                },
            };
            child_end = w.end;
        }
        proof {
            lemma_token_at(src@, child_end as int);
        }
        let after = match next_token(src, child_end) {
            Ok(t) => t,
            Err(e) => {
                return Err(ParseError::Lexical(e));
            },
        };
        proof {
            let node = value_at(src@, cur as int, nest as int)->Ok_0.0;
            let grown = acc.push((decimal(acc.len()), node));
            lemma_first_child_prefix(grown, acc, keys[at as int], acc.len());
            assert(keys[at as int] == segments@[at as int]@);
            acc = grown;
        }
        count = count + 1;
        if after.kind == TokenKind::SquareClose {
            return Ok(Sought { end: after.end, found, deepest: deepest_seen });
        }
        if after.kind != TokenKind::Comma {
            return Err(unclosed_error(&after, SyntaxErrorKind::MissingComma));
        }
        cur = after.end;
    }
}


} // verus!
