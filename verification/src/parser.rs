use vstd::prelude::*;
use vstd::utf8::encode_utf8_valid_utf8;
use crate::bytes::{copy_text, text_bytes};
use crate::error::{syntax_error, ParseError, SyntaxErrorKind};
use crate::flatten::{deepest_root, flat_view, flatten_root, FlatEntry, Policy};
use crate::layout::begins_at;
use crate::lexer::{lemma_token_at, next_token, skip_blank, Lexer, TokenKind};
use crate::seek::{seek_members, seek_token, split_segments};
use crate::tree::{document_at, locate, split_pointer, Node};
use crate::walk::{walk_members, walk_root, walk_token, Spot};
use crate::{ParseOptions, ParseResult, PointerKey};

verus! {

/// The value at which the flattening starts: the document itself, or the
/// value that `start_at`, a pointer into the document, leads to.
pub open spec fn start_target(root: Node, start_at: Option<Seq<u8>>) -> Option<Node> {
    match start_at {
        None => Some(root),
        Some(pointer) => match split_pointer(pointer) {
            None => None,
            Some(segments) => locate(root, segments, 0),
        },
    }
}

/// The entries of the document that begins at `pos` in `src`, and the depth
/// of its deepest value.
///
/// The input has to hold one document, which is checked to its end even
/// where only a part of it is flattened; an error is that of the first
/// token or value that is found wrong on the way. The
/// flattening starts at the value that `start_at` names; the pointers of
/// the entries are relative to that value and begin with `prefix`, and the
/// depths are counted from `start`.
pub open spec fn flatten_document(
    src: Seq<u8>,
    pos: int,
    policy: Policy,
    prefix: Seq<u8>,
    start_at: Option<Seq<u8>>,
    start: u8,
) -> Result<(Seq<FlatEntry>, int), ParseError> {
    match document_at(src, pos, start) {
        Err(e) => Err(e),
        Ok(root) => match start_target(root, start_at) {
            None => Err(syntax_error(SyntaxErrorKind::UnresolvedStart, begins_at(root))),
            Some(target) => Ok(
                (flatten_root(target, src, prefix, start, policy), deepest_root(target, start)),
            ),
        },
    }
}

/// A parser: a reader of tokens and the rules that make a flat list of
/// entries of what it reads.
pub struct Parser<'a> {
    pub lexer: Lexer<'a>,
}

impl<'a> Parser<'a> {
    pub fn new(lexer: Lexer<'a>) -> (r: Self)
        ensures
            r.lexer == lexer,
    {
        Parser { lexer }
    }

    /// The place in the input where the next document begins.
    pub open spec fn begin(&self) -> int {
        if self.lexer.position > self.lexer.input@.len() {
            self.lexer.input@.len() as int
        } else {
            self.lexer.position as int
        }
    }

    /// Flattens the document that begins where the reader stands, and
    /// leaves the reader at the end of the input. The depths of the entries
    /// are counted from `depth`. After an error the reader stays where it
    /// was.
    pub fn parse<'arena>(
        &mut self,
        options: &ParseOptions,
        depth: u8,
        arena: &'arena bumpalo::Bump,
    ) -> (r: Result<ParseResult<'arena>, ParseError>)
        ensures
            final(self).lexer.input == old(self).lexer.input,
            match flatten_document(
                old(self).lexer.input@,
                old(self).begin(),
                options.policy(),
                options.prefix_bytes(),
                text_bytes(options.start_parse_at),
                depth,
            ) {
                Ok((json, deepest)) => {
                    &&& r matches Ok(res)
                    &&& flat_view(res.json@) == json
                    &&& res.max_json_depth == deepest
                    &&& res.parsing_max_depth == options.max_depth
                    &&& res.started_parsing_at == options.start_parse_at
                    &&& res.parsing_prefix == options.prefix
                    &&& final(self).lexer.position == old(self).lexer.input@.len()
                },
                Err(err) => r matches Err(e) && e == err && final(self).lexer.position == old(
                    self).lexer.position,
            },
    {
        let src = self.lexer.input;
        let len = src.len();
        let pos = if self.lexer.position > len {
            len
        } else {
            self.lexer.position
        };
        proof {
            lemma_token_at(src@, pos as int);
        }
        let t = match next_token(src, pos) {
            Ok(t) => t,
            Err(e) => {
                return Err(ParseError::Lexical(e));
            },
        };
        if t.kind == TokenKind::EndOfInput {
            return Err(
                ParseError::Syntax { kind: SyntaxErrorKind::EmptyInput, position: t.start },
            );
        }
        let policy = Policy {
            parse_array: options.parse_array,
            keep_object_raw_data: options.keep_object_raw_data,
            max_depth: options.max_depth,
        };
        let nothing: Vec<u8> = Vec::new();
        let prefix: &[u8] = match &options.prefix {
            Some(p) => {
                proof {
                    encode_utf8_valid_utf8(p@);
                }
                p.as_str().as_bytes()
            },
            None => nothing.as_slice(),
        };
        let segments: Option<Vec<Vec<u8>>> = match &options.start_parse_at {
            Some(p) => split_segments(p.as_str().as_bytes()),
            None => Some(Vec::new()),
        };
        let root_start = t.start;
        let root_open = t.end;
        let root_is_object = t.kind == TokenKind::CurlyOpen;
        let mut out: Vec<(PointerKey<'arena>, Option<String>)> = Vec::new();
        assert(flat_view(out@) =~= Seq::<FlatEntry>::empty());
        let end: usize;
        let found: bool;
        let deepest: u8;
        match segments {
            Some(keys) => {
                if keys.len() == 0 {
                    match walk_root(src, pos, t, depth, depth, prefix, depth, policy, arena, &mut out) {
                        Ok(w) => {
                            end = w.end;
                            found = true;
                            deepest = w.deepest;
                        },
                        Err(e) => {
                            return Err(e);
                        },
                    }
                } else {
                    let sought = if root_is_object {
                        seek_members(
                            src,
                            root_open,
                            depth,
                            &keys,
                            0,
                            prefix,
                            depth,
                            policy,
                            arena,
                            &mut out,
                        )
                    } else {
                        seek_token(
                            src,
                            pos,
                            t,
                            depth,
                            &keys,
                            0,
                            prefix,
                            depth,
                            policy,
                            arena,
                            &mut out,
                        )
                    };
                    match sought {
                        Ok(s) => {
                            end = s.end;
                            found = s.found;
                            deepest = s.deepest;
                        },
                        Err(e) => {
                            return Err(e);
                        },
                    }
                }
            },
            None => {
                let walked = if root_is_object {
                    walk_members(
                        src,
                        root_open,
                        depth,
                        false,
                        prefix,
                        depth,
                        0,
                        depth,
                        policy,
                        arena,
                        &mut out,
                    )
                } else {
                    let spot = Spot { path: prefix, depth, index: 0, in_array: false };
                    walk_token(src, pos, t, depth, false, &spot, policy, arena, &mut out)
                };
                match walked {
                    Ok(w) => {
                        end = w.end;
                        found = false;
                        deepest = depth;
                    },
                    Err(e) => {
                        return Err(e);
                    },
                }
            },
        }
        let rest = skip_blank(src, end);
        if rest < len {
            return Err(
                ParseError::Syntax { kind: SyntaxErrorKind::TrailingContent, position: rest },
            );
        }
        if !found {
            return Err(
                ParseError::Syntax {
                    kind: SyntaxErrorKind::UnresolvedStart,
                    position: root_start,
                },
            );
        }
        self.lexer.position = len;
        Ok(
            ParseResult {
                json: out,
                max_json_depth: deepest as usize,
                parsing_max_depth: options.max_depth,
                started_parsing_at: copy_text(&options.start_parse_at),
                parsing_prefix: copy_text(&options.prefix),
            },
        )
    }
}

} // verus!
