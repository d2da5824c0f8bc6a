use vstd::prelude::*;
use crate::bytes::decimal;
use crate::error::{syntax_error, ParseError, SyntaxErrorKind};
use crate::lexer::{lemma_token_at, skip_whitespace, token_at, TokenKind};
use crate::ValueType;

verus! {

/// The deepest nesting at which a container may stand.
pub const MAX_NESTING: u8 = 255;

/// The model of a value of a document. A leaf is a string,
/// a number, a boolean or `null`, with the offset where it begins and its
/// text. A branch is an object or an array that takes up the bytes
/// `pos..end`; each of its children goes by a key, which for an element of
/// an array is its index in decimal digits.
pub enum Node {
    Leaf { kind: ValueType, pos: int, text: Seq<u8> },
    Branch { object: bool, pos: int, end: int, children: Seq<(Seq<u8>, Node)> },
}

/// What stands where a closing bracket or a separator was expected: the
/// input ended, or there is something else.
pub open spec fn unclosed(kind: TokenKind, otherwise: SyntaxErrorKind) -> SyntaxErrorKind {
    if kind == TokenKind::EndOfInput {
        SyntaxErrorKind::UnterminatedContainer
    } else {
        otherwise
    }
}

/// The value whose first token is the first at or after `pos`, and the
/// offset after its last byte. `nest` counts the containers around the
/// value; a container may not stand at `MAX_NESTING`.
pub open spec fn value_at(src: Seq<u8>, pos: int, nest: int) -> Result<(Node, int), ParseError>
    decreases src.len() - pos, 0int,
    when 0 <= pos <= src.len()
    via value_at_decreases
{
    match token_at(src, pos) {
        Err(e) => Err(ParseError::Lexical(e)),
        Ok(t) => match t.kind {
            TokenKind::StringLiteral => Ok(
                (Node::Leaf { kind: ValueType::String, pos: t.start, text: t.text }, t.end),
            ),
            TokenKind::Number => Ok(
                (Node::Leaf { kind: ValueType::Number, pos: t.start, text: t.text }, t.end),
            ),
            TokenKind::Boolean => Ok(
                (Node::Leaf { kind: ValueType::Bool, pos: t.start, text: t.text }, t.end),
            ),
            TokenKind::Null => Ok(
                (Node::Leaf { kind: ValueType::Null, pos: t.start, text: t.text }, t.end),
            ),
            TokenKind::CurlyOpen => if nest >= MAX_NESTING {
                Err(syntax_error(SyntaxErrorKind::DepthOverflow, t.start))
            } else {
                match members_from(src, t.end, nest + 1, Seq::empty()) {
                    Err(e) => Err(e),
                    Ok((children, end)) => Ok(
                        (Node::Branch { object: true, pos: t.start, end, children }, end),
                    ),
                }
            },
            TokenKind::SquareOpen => if nest >= MAX_NESTING {
                Err(syntax_error(SyntaxErrorKind::DepthOverflow, t.start))
            } else {
                match elements_from(src, t.end, nest + 1, Seq::empty()) {
                    Err(e) => Err(e),
                    Ok((children, end)) => Ok(
                        (Node::Branch { object: false, pos: t.start, end, children }, end),
                    ),
                }
            },
            TokenKind::EndOfInput => Err(
                syntax_error(SyntaxErrorKind::UnterminatedContainer, t.start),
            ),
            _ => Err(syntax_error(SyntaxErrorKind::UnexpectedToken, t.start)),
        },
    }
}

/// The members of an object from `pos` on, a place just after its opening
/// bracket or after a comma, added to those in `acc`; and the offset after
/// the closing bracket. `nest` is the nesting of the members. (The test
/// that the next member begins beyond `pos` never fails: it lets the
/// recursion be seen to advance.)
pub open spec fn members_from(
    src: Seq<u8>,
    pos: int,
    nest: int,
    acc: Seq<(Seq<u8>, Node)>,
) -> Result<(Seq<(Seq<u8>, Node)>, int), ParseError>
    decreases src.len() - pos, 1int,
    when 0 <= pos <= src.len()
    via members_from_decreases
{
    match token_at(src, pos) {
        Err(e) => Err(ParseError::Lexical(e)),
        Ok(key) => if key.kind == TokenKind::CurlyClose && acc.len() == 0 {
            Ok((acc, key.end))
        } else if key.kind != TokenKind::StringLiteral {
            Err(syntax_error(unclosed(key.kind, SyntaxErrorKind::UnexpectedToken), key.start))
        } else {
            match token_at(src, key.end) {
                Err(e) => Err(ParseError::Lexical(e)),
                Ok(colon) => if colon.kind != TokenKind::Colon {
                    Err(
                        syntax_error(
                            unclosed(colon.kind, SyntaxErrorKind::MissingColon),
                            colon.start,
                        ),
                    )
                } else {
                    match value_at(src, colon.end, nest) {
                        Err(e) => Err(e),
                        Ok((node, after)) => match token_at(src, after) {
                            Err(e) => Err(ParseError::Lexical(e)),
                            Ok(next) => if next.kind == TokenKind::CurlyClose {
                                Ok((acc.push((key.text, node)), next.end))
                            } else if next.kind == TokenKind::Comma && pos < next.end
                                <= src.len() {
                                members_from(src, next.end, nest, acc.push((key.text, node)))
                            } else {
                                Err(
                                    syntax_error(
                                        unclosed(next.kind, SyntaxErrorKind::MissingComma),
                                        next.start,
                                    ),
                                )
                            },
                        },
                    }
                },
            }
        },
    }
}

/// True when the first token at or after `pos` is the bracket that closes an
/// array.
pub open spec fn closes_at(src: Seq<u8>, pos: int) -> bool {
    match token_at(src, pos) {
        Ok(t) => t.kind == TokenKind::SquareClose,
        Err(_) => false,
    }
}

/// The elements of an array from `pos` on, a place just after its opening
/// bracket or after a comma, added to those in `acc`; and the offset after
/// the closing bracket. `nest` is the nesting of the elements. (The test
/// that the next element begins beyond `pos` never fails: it lets the
/// recursion be seen to advance.)
pub open spec fn elements_from(
    src: Seq<u8>,
    pos: int,
    nest: int,
    acc: Seq<(Seq<u8>, Node)>,
) -> Result<(Seq<(Seq<u8>, Node)>, int), ParseError>
    decreases src.len() - pos, 1int,
    when 0 <= pos <= src.len()
    via elements_from_decreases
{
    if acc.len() == 0 && closes_at(src, pos) {
        Ok((acc, token_at(src, pos)->Ok_0.end))
    } else {
        match value_at(src, pos, nest) {
            Err(e) => Err(e),
            Ok((node, after)) => match token_at(src, after) {
                Err(e) => Err(ParseError::Lexical(e)),
                Ok(next) => if next.kind == TokenKind::SquareClose {
                    Ok((acc.push((decimal(acc.len()), node)), next.end))
                } else if next.kind == TokenKind::Comma && pos < next.end <= src.len() {
                    elements_from(src, next.end, nest, acc.push((decimal(acc.len()), node)))
                } else {
                    Err(
                        syntax_error(
                            unclosed(next.kind, SyntaxErrorKind::MissingComma),
                            next.start,
                        ),
                    )
                },
            },
        }
    }
}

#[via_fn]
proof fn value_at_decreases(src: Seq<u8>, pos: int, nest: int) {
    lemma_token_at(src, pos);
}

#[via_fn]
proof fn members_from_decreases(src: Seq<u8>, pos: int, nest: int, acc: Seq<(Seq<u8>, Node)>) {
    lemma_token_at(src, pos);
    match token_at(src, pos) {
        Ok(key) => {
            lemma_token_at(src, key.end);
        },
        Err(_) => {},
    }
}

#[via_fn]
proof fn elements_from_decreases(src: Seq<u8>, pos: int, nest: int, acc: Seq<(Seq<u8>, Node)>) {
}

/// A value that is flattened as a root. An object that is a root is read
/// member by member, its members at the nesting `child_nest`; any other
/// root is a value at `nest`.
pub open spec fn rooted_at(src: Seq<u8>, pos: int, nest: int, child_nest: int) -> Result<
    (Node, int),
    ParseError,
> {
    match token_at(src, pos) {
        Err(e) => Err(ParseError::Lexical(e)),
        Ok(t) => if t.kind == TokenKind::CurlyOpen {
            match members_from(src, t.end, child_nest, Seq::empty()) {
                Err(e) => Err(e),
                Ok((children, end)) => Ok(
                    (Node::Branch { object: true, pos: t.start, end, children }, end),
                ),
            }
        } else {
            value_at(src, pos, nest)
        },
    }
}

/// The document that begins at `pos`: one value and nothing but white
/// space after it. The members of an object that is the document stand at
/// the nesting `start`; any other document stands there itself.
pub open spec fn document_at(src: Seq<u8>, pos: int, start: u8) -> Result<Node, ParseError> {
    match token_at(src, pos) {
        Err(e) => Err(ParseError::Lexical(e)),
        Ok(t) => if t.kind == TokenKind::EndOfInput {
            Err(syntax_error(SyntaxErrorKind::EmptyInput, t.start))
        } else {
            match rooted_at(src, pos, start as int, start as int) {
                Err(e) => Err(e),
                Ok((node, end)) => if skip_whitespace(src, end) < src.len() {
                    Err(syntax_error(SyntaxErrorKind::TrailingContent, skip_whitespace(src, end)))
                } else {
                    Ok(node)
                },
            }
        },
    }
}

/// The segments of a pointer from `pos` on; `current` holds the bytes of
/// the segment that `pos` lies in, `acc` the segments before it.
pub open spec fn segments_from(
    pointer: Seq<u8>,
    pos: int,
    current: Seq<u8>,
    acc: Seq<Seq<u8>>,
) -> Seq<Seq<u8>>
    decreases pointer.len() - pos,
{
    if pos < 0 || pos >= pointer.len() {
        acc.push(current)
    } else if pointer[pos] == crate::bytes::SLASH {
        segments_from(pointer, pos + 1, Seq::empty(), acc.push(current))
    } else {
        segments_from(pointer, pos + 1, current.push(pointer[pos]), acc)
    }
}

/// The segments that a pointer names, each one following a slash. The
/// empty pointer names the root and has no segment. A pointer that holds
/// something but does not begin with a slash names nothing.
pub open spec fn split_pointer(pointer: Seq<u8>) -> Option<Seq<Seq<u8>>> {
    if pointer.len() == 0 {
        Some(Seq::empty())
    } else if pointer[0] != crate::bytes::SLASH {
        None
    } else {
        Some(segments_from(pointer, 1, Seq::empty(), Seq::empty()))
    }
}

/// The index of the first of the first `n` children that goes by `key`.
pub open spec fn first_child(children: Seq<(Seq<u8>, Node)>, key: Seq<u8>, n: nat) -> Option<int>
    decreases n,
{
    if n == 0 || n > children.len() {
        None
    } else {
        match first_child(children, key, (n - 1) as nat) {
            Some(i) => Some(i),
            None => if children[n - 1].0 == key {
                Some(n - 1)
            } else {
                None
            },
        }
    }
}

/// The value that the segments from number `at` on lead to, starting at
/// `node`. Each segment picks, by its key, the first child that goes by it.
pub open spec fn locate(node: Node, segments: Seq<Seq<u8>>, at: nat) -> Option<Node>
    decreases segments.len() - at, 1int,
{
    if at >= segments.len() {
        Some(node)
    } else {
        match node {
            Node::Leaf { .. } => None,
            Node::Branch { children, .. } => locate_among(children, children.len(), segments, at),
        }
    }
}

/// The value that the segments from number `at` on lead to, starting among
/// the first `n` children of a container.
pub open spec fn locate_among(
    children: Seq<(Seq<u8>, Node)>,
    n: nat,
    segments: Seq<Seq<u8>>,
    at: nat,
) -> Option<Node>
    decreases segments.len() - at, 0int,
{
    if at >= segments.len() {
        None
    } else {
        match first_child(children, segments[at as int], n) {
            None => None,
            Some(i) => locate(children[i].1, segments, at + 1),
        }
    }
}

pub proof fn lemma_first_child_prefix(
    a: Seq<(Seq<u8>, Node)>,
    b: Seq<(Seq<u8>, Node)>,
    key: Seq<u8>,
    n: nat,
)
    requires
        n <= a.len(),
        n <= b.len(),
        forall|i: int| 0 <= i < n ==> a[i] == b[i],
    ensures
        first_child(a, key, n) == first_child(b, key, n),
        first_child(a, key, n) matches Some(i) ==> 0 <= i < n,
    decreases n,
{
    if n > 0 {
        lemma_first_child_prefix(a, b, key, (n - 1) as nat);
    }
}

} // verus!
