use vstd::prelude::*;

verus! {

/// What is wrong with a token.
#[derive(Clone, Copy, Debug, PartialEq, Eq, Structural)]
pub enum LexErrorKind {
    /// The input ends before the closing quote of a string literal.
    UnterminatedString,
    /// A backslash in a string literal is not followed by one of the escapes
    /// of JSON, or a `\u` escape names a surrogate without its partner.
    InvalidEscape,
    /// The text is not well-formed UTF-8.
    InvalidUtf8,
    /// No token starts with this byte.
    UnexpectedByte,
}

/// A malformed token, with the offset of the byte where it was seen.
#[derive(Clone, Copy, Debug, PartialEq, Eq, Structural)]
pub struct LexError {
    pub kind: LexErrorKind,
    pub position: usize,
}

/// What is wrong with the arrangement of the tokens.
#[derive(Clone, Copy, Debug, PartialEq, Eq, Structural)]
pub enum SyntaxErrorKind {
    /// There is no value in the input at all.
    EmptyInput,
    /// A token stands where a value, or the key of a member, has to stand.
    UnexpectedToken,
    /// The key of a member is not followed by a colon.
    MissingColon,
    /// A member or an element is followed neither by a comma nor by the
    /// bracket that closes its container.
    MissingComma,
    /// The input ends inside an object or an array.
    UnterminatedContainer,
    /// Something other than white space follows the document.
    TrailingContent,
    /// A container is nested deeper than the depth counter can count.
    DepthOverflow,
    /// The pointer at which flattening is to start names nothing in the
    /// document.
    UnresolvedStart,
}

/// Why a document could not be flattened.
#[derive(Clone, Copy, Debug, PartialEq, Eq, Structural)]
pub enum ParseError {
    Lexical(LexError),
    Syntax { kind: SyntaxErrorKind, position: usize },
}

impl ParseError {
    /// The offset, in the text that was parsed, of the byte at which the
    /// error was found.
    pub open spec fn spec_position(self) -> usize {
        match self {
            ParseError::Lexical(e) => e.position,
            ParseError::Syntax { position, .. } => position,
        }
    }

    #[verifier::when_used_as_spec(spec_position)]
    pub fn position(self) -> (r: usize)
        ensures
            r == self.spec_position(),
    {
        match self {
            ParseError::Lexical(e) => e.position,
            ParseError::Syntax { position, .. } => position,
        }
    }

    pub fn is_lexical(self) -> (r: bool)
        ensures
            r == (self is Lexical),
    {
        match self {
            ParseError::Lexical(_) => true,
            ParseError::Syntax { .. } => false,
        }
    }
}

/// A syntax error of the given kind at `position`.
pub open spec fn syntax_error(kind: SyntaxErrorKind, position: int) -> ParseError {
    ParseError::Syntax { kind, position: position as usize }
}

/// A lexical error of the given kind at `position`.
pub open spec fn lex_error(kind: LexErrorKind, position: int) -> LexError {
    LexError { kind, position: position as usize }
}

} // verus!
