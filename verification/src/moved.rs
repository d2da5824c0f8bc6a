use vstd::prelude::*;
use vstd::utf8::valid_utf8;
use crate::bytes::{decimal, lemma_valid_join};
use crate::lexer::{
    escape_at, hex4, is_number_byte, is_whitespace, lemma_number_end, lemma_skip_whitespace,
    lemma_string_content, lemma_token_at, lemma_token_is_text, number_end, skip_whitespace,
    string_content, token_at, Lexeme, TokenKind, BACKSLASH, QUOTE,
};
use crate::tree::{closes_at, elements_from, members_from, value_at, Node};

verus! {

/// White space is passed over in a part of a text as it is in the whole,
/// as far as the part reaches.
pub proof fn lemma_skip_whitespace_within(src: Seq<u8>, a: int, b: int, q: int)
    requires
        0 <= a <= q <= b <= src.len(),
    ensures
        skip_whitespace(src.subrange(a, b), q - a) == if skip_whitespace(src, q) < b {
            skip_whitespace(src, q) - a
        } else {
            b - a
        },
    decreases b - q,
{
    let raw = src.subrange(a, b);
    lemma_skip_whitespace(src, q);
    if q < b {
        assert(raw[q - a] == src[q]);
        if is_whitespace(src[q]) {
            lemma_skip_whitespace_within(src, a, b, q + 1);
        }
    }
}

/// A number that ends inside a part of a text ends there in the part.
pub proof fn lemma_number_end_within(src: Seq<u8>, a: int, b: int, q: int)
    requires
        0 <= a <= q <= b <= src.len(),
        number_end(src, q) <= b,
    ensures
        number_end(src.subrange(a, b), q - a) == number_end(src, q) - a,
    decreases b - q,
{
    let raw = src.subrange(a, b);
    lemma_number_end(src, q);
    if q < b {
        assert(raw[q - a] == src[q]);
        if is_number_byte(src[q]) {
            lemma_number_end_within(src, a, b, q + 1);
        }
    } else {
        if q < src.len() && is_number_byte(src[q]) {
            lemma_number_end(src, q + 1);
        }
    }
}

proof fn lemma_hex4_within(src: Seq<u8>, a: int, b: int, q: int)
    requires
        0 <= a <= q,
        q + 4 <= b <= src.len(),
    ensures
        hex4(src.subrange(a, b), q - a) == hex4(src, q),
{
    let raw = src.subrange(a, b);
    assert(raw[q - a] == src[q]);
    assert(raw[q - a + 1] == src[q + 1]);
    assert(raw[q - a + 2] == src[q + 2]);
    assert(raw[q - a + 3] == src[q + 3]);
}

/// An escape that lies in a part of a text reads in the part as it does in
/// the whole.
proof fn lemma_escape_within(src: Seq<u8>, a: int, b: int, q: int)
    requires
        0 <= a <= q,
        b <= src.len(),
        escape_at(src, q) matches Some((_, n)) && q + n <= b,
    ensures
        escape_at(src.subrange(a, b), q - a) == escape_at(src, q),
{
    reveal(escape_at);
    let raw = src.subrange(a, b);
    let found = escape_at(src, q).unwrap();
    let n = found.1;
    assert(n >= 2);
    assert(raw[q - a + 1] == src[q + 1]);
    if src[q + 1] == 0x75 {
        assert(n >= 6);
        lemma_hex4_within(src, a, b, q + 2);
        if n == 12 {
            assert(raw[q - a + 6] == src[q + 6]);
            assert(raw[q - a + 7] == src[q + 7]);
            lemma_hex4_within(src, a, b, q + 8);
        }
    }
}

/// A string literal that ends inside a part of a text reads in the part as
/// it does in the whole.
pub proof fn lemma_string_content_within(
    src: Seq<u8>,
    a: int,
    b: int,
    q: int,
    start: int,
    acc: Seq<u8>,
)
    requires
        0 <= a <= q <= b <= src.len(),
        string_content(src, q, start, acc) matches Ok((_, end)) && end <= b,
    ensures
        string_content(src.subrange(a, b), q - a, start - a, acc) matches Ok((text, end))
            && text == string_content(src, q, start, acc).unwrap().0 && end == string_content(
            src,
            q,
            start,
            acc,
        ).unwrap().1 - a,
    decreases src.len() - q,
{
    let raw = src.subrange(a, b);
    lemma_string_content(src, q, start, acc);
    assert(raw[q - a] == src[q]);
    if src[q] == QUOTE {
    } else if src[q] == BACKSLASH {
        let found = escape_at(src, q).unwrap();
        lemma_string_content(src, q + found.1, start, acc + found.0);
        lemma_escape_within(src, a, b, q);
        lemma_string_content_within(src, a, b, q + found.1, start, acc + found.0);
    } else {
        lemma_string_content(src, q + 1, start, acc.push(src[q]));
        lemma_string_content_within(src, a, b, q + 1, start, acc.push(src[q]));
    }
}

/// A token that ends inside a part of a text is a token of the part, the
/// same but for its place.
pub proof fn lemma_token_within(src: Seq<u8>, a: int, b: int, q: int)
    requires
        0 <= a <= q <= b <= src.len(),
        token_at(src, q) matches Ok(t) && t.kind != TokenKind::EndOfInput && t.end <= b,
    ensures
        token_at(src.subrange(a, b), q - a) == Ok::<Lexeme, crate::error::LexError>(
            Lexeme {
                kind: token_at(src, q)->Ok_0.kind,
                start: token_at(src, q)->Ok_0.start - a,
                end: token_at(src, q)->Ok_0.end - a,
                text: token_at(src, q)->Ok_0.text,
            },
        ),
{
    reveal(token_at);
    let raw = src.subrange(a, b);
    let t = token_at(src, q)->Ok_0;
    lemma_skip_whitespace(src, q);
    lemma_skip_whitespace_within(src, a, b, q);
    let p = skip_whitespace(src, q);
    assert(p == t.start);
    lemma_number_end(src, p + 1);
    lemma_string_content(src, p + 1, p, Seq::empty());
    assert(p < t.end);
    assert(raw[p - a] == src[p]);
    assert(raw.subrange(t.start - a, t.end - a) =~= src.subrange(t.start, t.end));
    if src[p] == QUOTE {
        lemma_string_content_within(src, a, b, p + 1, p, Seq::empty());
        assert(raw.subrange(p + 1 - a, t.end - 1 - a) =~= src.subrange(p + 1, t.end - 1));
    } else if t.kind == TokenKind::Number {
        lemma_number_end_within(src, a, b, p + 1);
    } else if t.kind == TokenKind::Boolean || t.kind == TokenKind::Null {
        assert(raw[p - a + 1] == src[p + 1]);
        assert(raw[p - a + 2] == src[p + 2]);
        assert(raw[p - a + 3] == src[p + 3]);
        if t.end == p + 5 {
            assert(raw[p - a + 4] == src[p + 4]);
        }
    }
}


/// A value ends behind the place where it was looked for, inside the text,
/// and what it takes up is well-formed UTF-8, with the white space before
/// it and without.
pub proof fn lemma_value_progress(src: Seq<u8>, q: int, nest: int)
    requires
        0 <= q <= src.len(),
    ensures
        value_at(src, q, nest) matches Ok((_, end)) ==> {
            &&& q < end <= src.len()
            &&& valid_utf8(src.subrange(q, end))
            &&& valid_utf8(src.subrange(token_at(src, q)->Ok_0.start, end))
        },
    decreases src.len() - q, 0int,
{
    lemma_token_at(src, q);
    lemma_token_is_text(src, q);
    match token_at(src, q) {
        Err(_) => {},
        Ok(t) => {
            if t.kind == TokenKind::CurlyOpen {
                lemma_members_progress(src, t.end, nest + 1, Seq::empty());
            } else if t.kind == TokenKind::SquareOpen {
                lemma_elements_progress(src, t.end, nest + 1, Seq::empty());
            }
            match value_at(src, q, nest) {
                Err(_) => {},
                Ok((_, end)) => {
                    lemma_valid_join(src, t.start, t.end, end);
                    lemma_valid_join(src, q, t.end, end);
                },
            }
        },
    }
}

pub proof fn lemma_members_progress(src: Seq<u8>, q: int, nest: int, acc: Seq<(Seq<u8>, Node)>)
    requires
        0 <= q <= src.len(),
    ensures
        members_from(src, q, nest, acc) matches Ok((_, end)) ==> {
            &&& q < end <= src.len()
            &&& src[end - 1] < 0x80
            &&& valid_utf8(src.subrange(q, end))
        },
    decreases src.len() - q, 1int,
{
    lemma_token_at(src, q);
    lemma_token_is_text(src, q);
    match token_at(src, q) {
        Err(_) => {},
        Ok(key) => {
            if key.kind == TokenKind::StringLiteral {
                lemma_token_at(src, key.end);
                lemma_token_is_text(src, key.end);
                match token_at(src, key.end) {
                    Err(_) => {},
                    Ok(colon) => {
                        if colon.kind == TokenKind::Colon {
                            lemma_value_progress(src, colon.end, nest);
                            match value_at(src, colon.end, nest) {
                                Err(_) => {},
                                Ok((node, after)) => {
                                    lemma_token_at(src, after);
                                    lemma_token_is_text(src, after);
                                    match token_at(src, after) {
                                        Err(_) => {},
                                        Ok(next) => {
                                            lemma_valid_join(src, q, key.end, colon.end);
                                            lemma_valid_join(src, q, colon.end, after);
                                            lemma_valid_join(src, q, after, next.end);
                                            if next.kind == TokenKind::Comma && q < next.end
                                                <= src.len() {
                                                lemma_members_progress(
                                                    src,
                                                    next.end,
                                                    nest,
                                                    acc.push((key.text, node)),
                                                );
                                                match members_from(src, q, nest, acc) {
                                                    Err(_) => {},
                                                    Ok((_, end)) => {
                                                        lemma_valid_join(src, q, next.end, end);
                                                    },
                                                }
                                            }
                                        },
                                    }
                                },
                            }
                        }
                    },
                }
            }
        },
    }
}

pub proof fn lemma_elements_progress(src: Seq<u8>, q: int, nest: int, acc: Seq<(Seq<u8>, Node)>)
    requires
        0 <= q <= src.len(),
    ensures
        elements_from(src, q, nest, acc) matches Ok((_, end)) ==> {
            &&& q < end <= src.len()
            &&& valid_utf8(src.subrange(q, end))
        },
    decreases src.len() - q, 1int,
{
    lemma_token_at(src, q);
    lemma_token_is_text(src, q);
    if acc.len() == 0 && closes_at(src, q) {
    } else {
        lemma_value_progress(src, q, nest);
        match value_at(src, q, nest) {
            Err(_) => {},
            Ok((node, after)) => {
                lemma_token_at(src, after);
                lemma_token_is_text(src, after);
                match token_at(src, after) {
                    Err(_) => {},
                    Ok(next) => {
                        lemma_valid_join(src, q, after, next.end);
                        if next.kind == TokenKind::Comma && q < next.end <= src.len() {
                            lemma_elements_progress(
                                src,
                                next.end,
                                nest,
                                acc.push((decimal(acc.len()), node)),
                            );
                            match elements_from(src, q, nest, acc) {
                                Err(_) => {},
                                Ok((_, end)) => {
                                    lemma_valid_join(src, q, next.end, end);
                                },
                            }
                        }
                    },
                }
            },
        }
    }
}

/// True when `other` is `node` read from a text that begins `by` bytes
/// later: the same value, each offset less by `by`.
pub open spec fn moved(node: Node, other: Node, by: int) -> bool
    decreases node,
{
    match node {
        Node::Leaf { kind, pos, text } => other == (Node::Leaf { kind, pos: pos - by, text }),
        Node::Branch { object, pos, end, children } => {
            &&& other matches Node::Branch { object: kind, pos: begin, end: finish, children: others }
            &&& kind == object
            &&& begin == pos - by
            &&& finish == end - by
            &&& others.len() == children.len()
            &&& forall|i: int|
                0 <= i < children.len() ==> (#[trigger] others[i]).0 == children[i].0 && moved(
                    children[i].1,
                    others[i].1,
                    by,
                )
        },
    }
}

/// The same of the children of a container.
pub open spec fn children_moved(
    children: Seq<(Seq<u8>, Node)>,
    others: Seq<(Seq<u8>, Node)>,
    by: int,
) -> bool {
    &&& others.len() == children.len()
    &&& forall|i: int|
        0 <= i < children.len() ==> (#[trigger] others[i]).0 == children[i].0 && moved(
            children[i].1,
            others[i].1,
            by,
        )
}

proof fn lemma_moved_push(
    children: Seq<(Seq<u8>, Node)>,
    others: Seq<(Seq<u8>, Node)>,
    by: int,
    key: Seq<u8>,
    node: Node,
    other: Node,
)
    requires
        children_moved(children, others, by),
        moved(node, other, by),
    ensures
        children_moved(children.push((key, node)), others.push((key, other)), by),
{
    let c = children.push((key, node));
    let o = others.push((key, other));
    assert forall|i: int| 0 <= i < c.len() implies (#[trigger] o[i]).0 == c[i].0 && moved(
        c[i].1,
        o[i].1,
        by,
    ) by {
        if i < children.len() {
            assert(o[i] == others[i]);
            assert(c[i] == children[i]);
        }
    }
}

/// A value that ends inside a part of a text is a value of the part, the
/// same but for its place.
pub proof fn lemma_value_moves(src: Seq<u8>, a: int, b: int, q: int, nest: int)
    requires
        0 <= a <= q <= b <= src.len(),
        value_at(src, q, nest) matches Ok((_, end)) && end <= b,
    ensures
        value_at(src.subrange(a, b), q - a, nest) matches Ok((other, end)) && end == value_at(
            src,
            q,
            nest,
        ).unwrap().1 - a && moved(value_at(src, q, nest).unwrap().0, other, a),
    decreases src.len() - q, 0int,
{
    let raw = src.subrange(a, b);
    lemma_token_at(src, q);
    let t = token_at(src, q)->Ok_0;
    if t.kind == TokenKind::CurlyOpen {
        lemma_members_progress(src, t.end, nest + 1, Seq::empty());
        lemma_token_within(src, a, b, q);
        lemma_members_move(src, a, b, t.end, nest + 1, Seq::empty(), Seq::empty());
    } else if t.kind == TokenKind::SquareOpen {
        lemma_elements_progress(src, t.end, nest + 1, Seq::empty());
        lemma_token_within(src, a, b, q);
        lemma_elements_move(src, a, b, t.end, nest + 1, Seq::empty(), Seq::empty());
    } else {
        lemma_token_within(src, a, b, q);
    }
}

pub proof fn lemma_members_move(
    src: Seq<u8>,
    a: int,
    b: int,
    q: int,
    nest: int,
    acc: Seq<(Seq<u8>, Node)>,
    others: Seq<(Seq<u8>, Node)>,
)
    requires
        0 <= a <= q <= b <= src.len(),
        children_moved(acc, others, a),
        members_from(src, q, nest, acc) matches Ok((_, end)) && end <= b,
    ensures
        members_from(src.subrange(a, b), q - a, nest, others) matches Ok((moved_children, end))
            && end == members_from(src, q, nest, acc).unwrap().1 - a && children_moved(
            members_from(src, q, nest, acc).unwrap().0,
            moved_children,
            a,
        ),
    decreases src.len() - q, 1int,
{
    let raw = src.subrange(a, b);
    lemma_token_at(src, q);
    let key = token_at(src, q)->Ok_0;
    if key.kind == TokenKind::CurlyClose && acc.len() == 0 {
        lemma_token_within(src, a, b, q);
    } else {
        lemma_token_at(src, key.end);
        let colon = token_at(src, key.end)->Ok_0;
        lemma_value_progress(src, colon.end, nest);
        let found = value_at(src, colon.end, nest).unwrap();
        let node = found.0;
        let after = found.1;
        lemma_token_at(src, after);
        let next = token_at(src, after)->Ok_0;
        let grown = acc.push((key.text, node));
        if next.kind == TokenKind::Comma {
            lemma_members_progress(src, next.end, nest, grown);
        }
        lemma_token_within(src, a, b, q);
        lemma_token_within(src, a, b, key.end);
        lemma_value_moves(src, a, b, colon.end, nest);
        lemma_token_within(src, a, b, after);
        let other = value_at(raw, colon.end - a, nest).unwrap().0;
        lemma_moved_push(acc, others, a, key.text, node, other);
        if next.kind == TokenKind::Comma {
            lemma_members_move(src, a, b, next.end, nest, grown, others.push((key.text, other)));
        }
    }
}

pub proof fn lemma_elements_move(
    src: Seq<u8>,
    a: int,
    b: int,
    q: int,
    nest: int,
    acc: Seq<(Seq<u8>, Node)>,
    others: Seq<(Seq<u8>, Node)>,
)
    requires
        0 <= a <= q <= b <= src.len(),
        children_moved(acc, others, a),
        elements_from(src, q, nest, acc) matches Ok((_, end)) && end <= b,
    ensures
        elements_from(src.subrange(a, b), q - a, nest, others) matches Ok((moved_children, end))
            && end == elements_from(src, q, nest, acc).unwrap().1 - a && children_moved(
            elements_from(src, q, nest, acc).unwrap().0,
            moved_children,
            a,
        ),
    decreases src.len() - q, 1int,
{
    let raw = src.subrange(a, b);
    lemma_token_at(src, q);
    if acc.len() == 0 && closes_at(src, q) {
        lemma_token_within(src, a, b, q);
    } else {
        lemma_value_progress(src, q, nest);
        let found = value_at(src, q, nest).unwrap();
        let node = found.0;
        let after = found.1;
        lemma_token_at(src, after);
        let next = token_at(src, after)->Ok_0;
        let key = decimal(acc.len());
        let grown = acc.push((key, node));
        if next.kind == TokenKind::Comma {
            lemma_elements_progress(src, next.end, nest, grown);
        }
        lemma_value_moves(src, a, b, q, nest);
        lemma_token_within(src, a, b, after);
        let other = value_at(raw, q - a, nest).unwrap().0;
        lemma_moved_push(acc, others, a, key, node, other);
        lemma_first_token_moves(src, a, b, q, nest);
        if next.kind == TokenKind::Comma {
            lemma_elements_move(src, a, b, next.end, nest, grown, others.push((key, other)));
        }
    }
}

/// Where a value of a text follows, no closing bracket stands in the part
/// either.
proof fn lemma_first_token_moves(src: Seq<u8>, a: int, b: int, q: int, nest: int)
    requires
        0 <= a <= q <= b <= src.len(),
        value_at(src, q, nest) matches Ok((_, end)) && end <= b,
    ensures
        closes_at(src.subrange(a, b), q - a) == closes_at(src, q),
{
    lemma_token_at(src, q);
    let t = token_at(src, q)->Ok_0;
    if t.kind == TokenKind::CurlyOpen {
        lemma_members_progress(src, t.end, nest + 1, Seq::empty());
    } else if t.kind == TokenKind::SquareOpen {
        lemma_elements_progress(src, t.end, nest + 1, Seq::empty());
    }
    lemma_token_within(src, a, b, q);
}


/// A token is found again at the place where it begins.
pub proof fn lemma_token_restart(src: Seq<u8>, q: int)
    requires
        0 <= q <= src.len(),
        token_at(src, q) is Ok,
    ensures
        token_at(src, token_at(src, q)->Ok_0.start) == token_at(src, q),
{
    reveal(token_at);
    lemma_skip_whitespace(src, q);
    let p = skip_whitespace(src, q);
    assert(skip_whitespace(src, p) == p);
}

} // verus!
