//! A JSON parser that makes no tree: it flattens a document into a list of
//! entries, each a pointer to a value and the text of that value, in the
//! order of the document. Objects below a chosen depth are kept as text and
//! can be flattened later, one step deeper at a time.

use vstd::prelude::*;
use vstd::utf8::{
    encode_utf8, encode_utf8_valid_utf8, is_char_boundary_iff_not_is_continuation_byte,
    valid_utf8,
};
use crate::bytes::{
    bytes_eq, copy_text, decimal, extend_bytes, lemma_same_bytes_same_text, push_decimal,
    text_bytes, SLASH,
};
use crate::error::ParseError;
use crate::flatten::{
    entry_view, flat_view, lemma_flat_view_concat, lemma_flat_view_push, FlatEntry, Policy,
};
use crate::lexer::Lexer;
use crate::parser::{flatten_document, Parser};
use crate::widen::{
    depth_after, is_deferred, lemma_widen_error_stays, widen_entries, widen_entry, widened,
};

pub mod arena;
pub mod bytes;
pub mod error;
pub mod flatten;
pub mod laws;
pub mod layout;
pub mod lexer;
pub mod moved;
pub mod parser;
pub mod reparse;
pub mod seek;
pub mod tree;
pub mod walk;
pub mod widen;

verus! {

/// The kind of a JSON value. `Array` carries the number of elements that
/// the array holds. `Absent` stands in where no value has been seen yet.
#[derive(Clone, Copy, Debug, PartialEq, Eq, Hash, Structural)]
pub enum ValueType {
    Array(usize),
    Object,
    Number,
    String,
    Bool,
    Null,
    Absent,
}

impl Default for ValueType {
    fn default() -> (r: Self)
        ensures
            r == ValueType::Absent,
    {
        ValueType::Absent
    }
}

/// One location of a document: the pointer that leads to it, the kind of
/// value found there, its depth, the index of the element of the nearest
/// array around it that it belongs to, and the offset of the value in the
/// text that was parsed.
#[derive(Debug, Clone)]
pub struct PointerKey<'arena> {
    pub pointer: &'arena str,
    pub value_type: ValueType,
    pub depth: u8,
    pub index: usize,
    pub position: usize,
}

/// A flattened document: its entries in the order of the text.
pub type FlatJsonValue<'arena> = Vec<(PointerKey<'arena>, Option<String>)>;

impl<'arena> PartialEq for PointerKey<'arena> {
    /// Two keys are equal when their pointers are.
    fn eq(&self, other: &Self) -> (r: bool) {
        proof {
            if encode_utf8(self.pointer@) == encode_utf8(other.pointer@) {
                lemma_same_bytes_same_text(self.pointer@, other.pointer@);
            }
        }
        bytes_eq(self.pointer.as_bytes(), other.pointer.as_bytes())
    }
}

impl<'arena> vstd::std_specs::cmp::PartialEqSpecImpl for PointerKey<'arena> {
    open spec fn obeys_eq_spec() -> bool {
        true
    }

    open spec fn eq_spec(&self, other: &Self) -> bool {
        self.pointer@ == other.pointer@
    }
}

impl<'arena> Eq for PointerKey<'arena> {

}

impl<'arena> std::hash::Hash for PointerKey<'arena> {
    /// `str::hash` of the pointer: keys that are equal hash alike, since
    /// nothing but the pointer is fed to the hasher.
    #[verifier::external_body]
    fn hash<H: std::hash::Hasher>(&self, state: &mut H) {
        self.pointer.hash(state);
    }
}

impl<'arena> PointerKey<'arena> {
    pub fn from_pointer(
        pointer: &'arena str,
        value_type: ValueType,
        depth: u8,
        position: usize,
    ) -> (r: Self)
        ensures
            r.pointer == pointer,
            r.value_type == value_type,
            r.depth == depth,
            r.position == position,
            r.index == 0,
    {
        PointerKey { pointer, value_type, depth, position, index: 0 }
    }
}

/// How a document is to be flattened.
#[derive(Debug)]
pub struct ParseOptions {
    pub parse_array: bool,
    pub keep_object_raw_data: bool,
    pub max_depth: u8,
    pub start_parse_at: Option<String>,
    pub prefix: Option<String>,
}

impl Default for ParseOptions {
    fn default() -> (r: Self)
        ensures
            r.parse_array,
            r.keep_object_raw_data,
            r.max_depth == 10,
            r.start_parse_at is None,
            r.prefix is None,
    {
        ParseOptions {
            parse_array: true,
            keep_object_raw_data: true,
            max_depth: 10,
            start_parse_at: None,
            prefix: None,
        }
    }
}

impl Clone for ParseOptions {
    fn clone(&self) -> (r: Self)
        ensures
            r == *self,
    {
        ParseOptions {
            parse_array: self.parse_array,
            keep_object_raw_data: self.keep_object_raw_data,
            max_depth: self.max_depth,
            start_parse_at: crate::bytes::copy_text(&self.start_parse_at),
            prefix: crate::bytes::copy_text(&self.prefix),
        }
    }
}

impl ParseOptions {
    /// The part of the options that decides how deep the flattening goes.
    pub open spec fn policy(&self) -> Policy {
        Policy {
            parse_array: self.parse_array,
            keep_object_raw_data: self.keep_object_raw_data,
            max_depth: self.max_depth,
        }
    }

    /// The bytes that every pointer of the result begins with.
    pub open spec fn prefix_bytes(&self) -> Seq<u8> {
        match self.prefix {
            Some(p) => encode_utf8(p@),
            None => Seq::empty(),
        }
    }

    pub fn parse_array(self, parse_array: bool) -> (r: Self)
        ensures
            r == (ParseOptions { parse_array, ..self }),
    {
        ParseOptions { parse_array, ..self }
    }

    pub fn start_parse_at(self, pointer: String) -> (r: Self)
        ensures
            r == (ParseOptions { start_parse_at: Some(pointer), ..self }),
    {
        ParseOptions { start_parse_at: Some(pointer), ..self }
    }

    pub fn max_depth(self, max_depth: u8) -> (r: Self)
        ensures
            r == (ParseOptions { max_depth, ..self }),
    {
        ParseOptions { max_depth, ..self }
    }

    pub fn prefix(self, prefix: String) -> (r: Self)
        ensures
            r == (ParseOptions { prefix: Some(prefix), ..self }),
    {
        ParseOptions { prefix: Some(prefix), ..self }
    }

    pub fn keep_object_raw_data(self, keep_object_raw_data: bool) -> (r: Self)
        ensures
            r == (ParseOptions { keep_object_raw_data, ..self }),
    {
        ParseOptions { keep_object_raw_data, ..self }
    }
}

/// A flattened document and how it was made: the deepest depth of a value
/// of the document, the depth down to which it was flattened, the pointer
/// at which the flattening started and the prefix of its pointers.
#[derive(Clone)]
pub struct ParseResult<'arena> {
    pub json: FlatJsonValue<'arena>,
    pub max_json_depth: usize,
    pub parsing_max_depth: u8,
    pub started_parsing_at: Option<String>,
    pub parsing_prefix: Option<String>,
}

impl<'arena> ParseResult<'arena> {
    /// A result with the same account of how it was made, and no entries.
    pub fn clone_except_json(&self) -> (r: Self)
        ensures
            r.json@.len() == 0,
            r.max_json_depth == self.max_json_depth,
            r.parsing_max_depth == self.parsing_max_depth,
            r.started_parsing_at == self.started_parsing_at,
            r.parsing_prefix == self.parsing_prefix,
    {
        ParseResult {
            json: Vec::new(),
            max_json_depth: self.max_json_depth,
            parsing_max_depth: self.parsing_max_depth,
            started_parsing_at: crate::bytes::copy_text(&self.started_parsing_at),
            parsing_prefix: crate::bytes::copy_text(&self.parsing_prefix),
        }
    }
}

/// The parser of a text.
pub struct JSONParser<'a> {
    pub parser: Parser<'a>,
}

impl<'a> JSONParser<'a> {
    /// A parser at the beginning of `input`.
    pub fn new(input: &'a str) -> (r: Self)
        ensures
            r.parser.lexer.input@ == encode_utf8(input@),
            r.parser.lexer.position == 0,
    {
        let lexer = Lexer::new(input.as_bytes());
        let parser = Parser::new(lexer);
        JSONParser { parser }
    }
}

/// The offset of the last slash among the first `n` bytes.
pub open spec fn last_slash(pointer: Seq<u8>, n: nat) -> Option<int>
    decreases n,
{
    if n == 0 || n > pointer.len() {
        None
    } else if pointer[n - 1] == SLASH {
        Some(n - 1)
    } else {
        last_slash(pointer, (n - 1) as nat)
    }
}

/// The bytes of the pointer of the parent: what stands before the last
/// slash of the pointer; a lone slash where the pointer has no slash but at
/// its beginning, or none at all.
pub open spec fn parent_pointer(pointer: Seq<u8>) -> Seq<u8> {
    match last_slash(pointer, pointer.len()) {
        Some(i) => if i == 0 {
            seq![SLASH]
        } else {
            pointer.subrange(0, i)
        },
        None => seq![SLASH],
    }
}

impl<'arena> PointerKey<'arena> {
    /// The pointer of the parent.
    pub fn parent(&self) -> (r: &str)
        ensures
            encode_utf8(r@) == parent_pointer(encode_utf8(self.pointer@)),
    {
        let bytes = self.pointer.as_bytes();
        let mut n: usize = bytes.len();
        while n > 0 && bytes[n - 1] != SLASH
            invariant
                n <= bytes@.len(),
                last_slash(bytes@, bytes@.len()) == last_slash(bytes@, n as nat),
            decreases n,
        {
            n -= 1;
        }
        if n <= 1 {
            proof {
                reveal_strlit("/");
                let one = "/"@;
                assert(one.len() == 1 && one[0] == '/');
                assert(encode_utf8(one) =~= seq![SLASH]) by {
                    vstd::utf8::is_ascii_chars_encode_utf8(one);
                }
            }
            "/"
        } else {
            proof {
                encode_utf8_valid_utf8(self.pointer@);
                is_char_boundary_iff_not_is_continuation_byte(bytes@, n - 1);
            }
            let parts = self.pointer.split_at(n - 1);
            parts.0
        }
    }
}

impl<'arena> Default for PointerKey<'arena> {
    fn default() -> (r: Self)
        ensures
            r.pointer@.len() == 0,
            r.value_type == ValueType::Absent,
            r.depth == 0,
            r.index == 0,
            r.position == 0,
    {
        proof {
            reveal_strlit("");
        }
        PointerKey { pointer: "", value_type: ValueType::Absent, depth: 0, index: 0, position: 0 }
    }
}

/// A copy of the entries.
pub(crate) fn copy_entries<'arena>(entries: &Vec<(PointerKey<'arena>, Option<String>)>) -> (r: Vec<
    (PointerKey<'arena>, Option<String>),
>)
    ensures
        r@.len() == entries@.len(),
        flat_view(r@) == flat_view(entries@),
{
    let mut r: Vec<(PointerKey<'arena>, Option<String>)> = Vec::with_capacity(entries.len());
    let mut i: usize = 0;
    while i < entries.len()
        invariant
            i <= entries@.len(),
            r@.len() == i,
            forall|j: int| 0 <= j < i ==> entry_view(r@[j]) == entry_view(entries@[j]),
        decreases entries@.len() - i,
    {
        let e = &entries[i];
        let key = PointerKey {
            pointer: e.0.pointer,
            value_type: e.0.value_type,
            depth: e.0.depth,
            index: e.0.index,
            position: e.0.position,
        };
        r.push((key, copy_text(&e.1)));
        i += 1;
    }
    assert(flat_view(r@) =~= flat_view(entries@));
    r
}

/// The index of the first of the first `n` entries whose pointer is
/// `pointer`.
pub open spec fn first_with_pointer(entries: Seq<FlatEntry>, pointer: Seq<u8>, n: nat) -> Option<
    int,
>
    decreases n,
{
    if n == 0 || n > entries.len() {
        None
    } else {
        match first_with_pointer(entries, pointer, (n - 1) as nat) {
            Some(i) => Some(i),
            None => if entries[n - 1].pointer == pointer {
                Some(n - 1)
            } else {
                None
            },
        }
    }
}

pub proof fn lemma_first_with_pointer(entries: Seq<FlatEntry>, pointer: Seq<u8>, n: nat)
    requires
        n <= entries.len(),
    ensures
        match first_with_pointer(entries, pointer, n) {
            Some(i) => 0 <= i < n && entries[i].pointer == pointer && forall|j: int|
                0 <= j < i ==> (#[trigger] entries[j]).pointer != pointer,
            None => forall|j: int| 0 <= j < n ==> (#[trigger] entries[j]).pointer != pointer,
        },
    decreases n,
{
    if n > 0 {
        lemma_first_with_pointer(entries, pointer, (n - 1) as nat);
    }
}

/// One row of a flattened array: the entries and the index of the element
/// of the array that the row stands for.
#[derive(Debug)]
pub struct JsonArrayEntries<'arena> {
    entries: FlatJsonValue<'arena>,
    index: usize,
}

/// The model of a row.
pub struct RowView {
    pub entries: Seq<FlatEntry>,
    pub index: usize,
}

impl<'arena> View for JsonArrayEntries<'arena> {
    type V = RowView;

    closed spec fn view(&self) -> RowView {
        RowView { entries: flat_view(self.entries@), index: self.index }
    }
}

impl<'arena> Clone for JsonArrayEntries<'arena> {
    fn clone(&self) -> (r: Self)
        ensures
            r@ == self@,
    {
        JsonArrayEntries { entries: copy_entries(&self.entries), index: self.index }
    }
}

impl<'arena> JsonArrayEntries<'arena> {
    /// The entries as they are held.
    pub closed spec fn items(&self) -> Seq<(PointerKey<'arena>, Option<String>)> {
        self.entries@
    }

    /// The row number `index` with the given entries.
    pub fn new(entries: FlatJsonValue<'arena>, index: usize) -> (r: Self)
        ensures
            r.items() == entries@,
            r@.entries == flat_view(entries@),
            r@.index == index,
    {
        JsonArrayEntries { entries, index }
    }

    pub fn entries(&self) -> (r: &FlatJsonValue<'arena>)
        ensures
            r@ == self.items(),
            flat_view(r@) == self@.entries,
    {
        &self.entries
    }

    pub fn index(&self) -> (r: usize)
        ensures
            r == self@.index,
    {
        self.index
    }

    /// The place of the first entry whose pointer has the bytes `pointer`.
    fn find_place(&self, pointer: &[u8]) -> (r: Option<usize>)
        ensures
            match first_with_pointer(self@.entries, pointer@, self@.entries.len()) {
                Some(i) => r matches Some(place) && place == i && place < self.items().len(),
                None => r is None,
            },
    {
        let mut i: usize = 0;
        while i < self.entries.len()
            invariant
                i <= self.entries@.len(),
                first_with_pointer(flat_view(self.entries@), pointer@, i as nat) is None,
            decreases self.entries@.len() - i,
        {
            if bytes_eq(self.entries[i].0.pointer.as_bytes(), pointer) {
                proof {
                    lemma_first_found(flat_view(self.entries@), pointer@, i as nat);
                }
                return Some(i);
            }
            i += 1;
        }
        None
    }

    /// The first entry whose pointer is `pointer`.
    pub fn find_node_at(&self, pointer: &str) -> (r: Option<&(PointerKey<'arena>, Option<String>)>)
        ensures
            match first_with_pointer(self@.entries, encode_utf8(pointer@), self@.entries.len()) {
                Some(i) => r == Some(&self.items()[i]),
                None => r is None,
            },
    {
        match self.find_place(pointer.as_bytes()) {
            Some(i) => Some(&self.entries[i]),
            None => None,
        }
    }
}

/// Once an entry with the pointer is found, it stays the first.
pub proof fn lemma_first_found(entries: Seq<FlatEntry>, pointer: Seq<u8>, i: nat)
    requires
        i < entries.len(),
        first_with_pointer(entries, pointer, i) is None,
        entries[i as int].pointer == pointer,
    ensures
        first_with_pointer(entries, pointer, entries.len()) == Some(i as int),
{
    lemma_first_stays(entries, pointer, i + 1, entries.len());
}

pub proof fn lemma_first_stays(entries: Seq<FlatEntry>, pointer: Seq<u8>, n: nat, m: nat)
    requires
        n <= m <= entries.len(),
        first_with_pointer(entries, pointer, n) is Some,
    ensures
        first_with_pointer(entries, pointer, m) == first_with_pointer(entries, pointer, n),
    decreases m - n,
{
    if n < m {
        lemma_first_stays(entries, pointer, n, (m - 1) as nat);
    }
}

/// True when the first entry with the pointer holds a value.
pub open spec fn has_value(entries: Seq<FlatEntry>, pointer: Seq<u8>) -> bool {
    match first_with_pointer(entries, pointer, entries.len()) {
        Some(i) => entries[i].value is Some,
        None => false,
    }
}

/// The pointer of a column in the row number `index`.
pub open spec fn column_pointer(prefix: Seq<u8>, index: usize, column: Seq<u8>) -> Seq<u8> {
    prefix + seq![SLASH] + decimal(index as nat) + column
}

/// True for a row that has a value in each of the first `n` columns.
pub open spec fn has_columns(row: RowView, prefix: Seq<u8>, columns: Seq<String>, n: nat) -> bool {
    forall|c: int|
        0 <= c < n && c < columns.len() ==> has_value(
            row.entries,
            column_pointer(prefix, row.index, encode_utf8((#[trigger] columns[c])@)),
        )
}

/// The models of the rows.
pub open spec fn rows_view(rows: Seq<JsonArrayEntries<'_>>) -> Seq<RowView> {
    Seq::new(rows.len(), |i: int| rows[i]@)
}

impl<'a> JSONParser<'a> {
    /// Flattens the text from where the parser stands, with the depths
    /// counted from 1, and leaves the parser at the end of the text.
    pub fn parse<'arena>(&mut self, options: ParseOptions, arena: &'arena bumpalo::Bump) -> (r:
        Result<ParseResult<'arena>, ParseError>)
        ensures
            final(self).parser.lexer.input == old(self).parser.lexer.input,
            match flatten_document(
                old(self).parser.lexer.input@,
                old(self).parser.begin(),
                options.policy(),
                options.prefix_bytes(),
                text_bytes(options.start_parse_at),
                1,
            ) {
                Ok((json, deepest)) => {
                    &&& r matches Ok(res)
                    &&& flat_view(res.json@) == json
                    &&& res.max_json_depth == deepest
                    &&& res.parsing_max_depth == options.max_depth
                    &&& res.started_parsing_at == options.start_parse_at
                    &&& res.parsing_prefix == options.prefix
                    &&& final(self).parser.lexer.position == old(self).parser.lexer.input@.len()
                },
                Err(err) => r matches Err(e) && e == err && final(self).parser.lexer.position
                    == old(self).parser.lexer.position,
            },
    {
        self.parser.parse(&options, 1, arena)
    }

    /// Flattens a result one step further: down to the `max_depth` of
    /// `options`, where that is deeper than the depth down to which the
    /// result was flattened; else the result comes back as it is.
    pub fn change_depth<'arena>(
        previous: ParseResult<'arena>,
        options: ParseOptions,
        arena: &'arena bumpalo::Bump,
    ) -> (r: Result<ParseResult<'arena>, ParseError>)
        ensures
            previous.parsing_max_depth >= options.max_depth ==> r == Ok::<
                ParseResult<'arena>,
                ParseError,
            >(previous),
            match widened(
                flat_view(previous.json@),
                previous.parsing_max_depth,
                options.policy(),
                text_bytes(options.start_parse_at),
            ) {
                Ok(json) => {
                    &&& r matches Ok(res)
                    &&& flat_view(res.json@) == json
                    &&& res.max_json_depth == previous.max_json_depth
                    &&& res.parsing_max_depth == depth_after(
                        previous.parsing_max_depth,
                        options.policy(),
                    )
                    &&& res.started_parsing_at == previous.started_parsing_at
                    &&& res.parsing_prefix == previous.parsing_prefix
                },
                Err(err) => r matches Err(e) && e == err,
            },
    {
        if previous.parsing_max_depth >= options.max_depth {
            return Ok(previous);
        }
        let mut inner_options = options.clone();
        let reached = previous.parsing_max_depth;
        let total = previous.json.len();
        let ghost entries = flat_view(previous.json@);
        let ghost policy = options.policy();
        let ghost start_at = text_bytes(options.start_parse_at);
        let mut json: Vec<(PointerKey<'arena>, Option<String>)> = Vec::with_capacity(total);
        let mut i: usize = 0;
        assert(flat_view(json@) =~= Seq::<FlatEntry>::empty());
        while i < total
            invariant
                i <= total == previous.json@.len(),
                entries == flat_view(previous.json@),
                policy == options.policy(),
                policy == inner_options.policy(),
                start_at == text_bytes(options.start_parse_at),
                start_at == text_bytes(inner_options.start_parse_at),
                reached == previous.parsing_max_depth,
                reached < options.max_depth,
                widen_entries(entries, i as nat, reached, policy, start_at) == Ok::<
                    Seq<FlatEntry>,
                    ParseError,
                >(flat_view(json@)),
            decreases total - i,
        {
            let e = &previous.json[i];
            let key = PointerKey {
                pointer: e.0.pointer,
                value_type: e.0.value_type,
                depth: e.0.depth,
                index: e.0.index,
                position: e.0.position,
            };
            let deferred = match key.value_type {
                ValueType::Object => key.depth == reached,
                _ => false,
            };
            let ghost seen = flat_view(json@);
            let ghost entry = entries[i as int];
            assert(entry == entry_view(*e));
            assert(deferred == is_deferred(entry, reached));
            if deferred {
                match &e.1 {
                    Some(text) => {
                        let depth = key.depth;
                        let copy = text.clone();
                        proof {
                            lemma_flat_view_push(json@, (key, Some(copy)));
                        }
                        json.push((key, Some(copy)));
                        inner_options.prefix = Some(e.0.pointer.to_owned());
                        let mut parser = Parser::new(Lexer::new(text.as_str().as_bytes()));
                        match parser.parse(&inner_options, depth + 1, arena) {
                            Ok(inner) => {
                                let mut inner = inner;
                                let ghost sub = flat_view(inner.json@);
                                proof {
                                    lemma_flat_view_concat(json@, inner.json@);
                                }
                                json.append(&mut inner.json);
                                assert(widen_entry(entry, reached, policy, start_at) == Ok::<
                                    Seq<FlatEntry>,
                                    ParseError,
                                >(seq![entry] + sub));
                                assert(flat_view(json@) =~= seen + (seq![entry] + sub));
                            },
                            Err(err) => {
                                proof {
                                    assert(widen_entry(entry, reached, policy, start_at) == Err::<
                                        Seq<FlatEntry>,
                                        ParseError,
                                    >(err));
                                    assert(widen_entries(
                                        entries,
                                        (i + 1) as nat,
                                        reached,
                                        policy,
                                        start_at,
                                    ) == Err::<Seq<FlatEntry>, ParseError>(err));
                                    lemma_widen_error_stays(
                                        entries,
                                        (i + 1) as nat,
                                        total as nat,
                                        reached,
                                        policy,
                                        start_at,
                                    );
                                }
                                return Err(err);
                            },
                        }
                    },
                    None => {
                        proof {
                            lemma_flat_view_push(json@, (key, None));
                        }
                        json.push((key, None));
                        assert(flat_view(json@) =~= seen + seq![entry]);
                    },
                }
            } else {
                let value = copy_text(&e.1);
                proof {
                    lemma_flat_view_push(json@, (key, value));
                }
                json.push((key, value));
                assert(flat_view(json@) =~= seen + seq![entry]);
            }
            i += 1;
        }
        Ok(
            ParseResult {
                json,
                max_json_depth: previous.max_json_depth,
                parsing_max_depth: options.max_depth,
                started_parsing_at: previous.started_parsing_at,
                parsing_prefix: previous.parsing_prefix,
            },
        )
    }

    /// The rows that have a value in every column: a row is kept when, for
    /// each of `non_null_columns`, the first of its entries at the pointer
    /// made of `prefix`, a slash, the index of the row and the column holds
    /// a value.
    pub fn filter_non_null_column<'arena>(
        previous_parse_result: &Vec<JsonArrayEntries<'arena>>,
        prefix: &str,
        non_null_columns: &Vec<String>,
    ) -> (r: Vec<JsonArrayEntries<'arena>>)
        ensures
            rows_view(r@) == rows_view(previous_parse_result@).filter(
                |row: RowView|
                    has_columns(row, encode_utf8(prefix@), non_null_columns@, non_null_columns@.len()),
            ),
    {
        let rows = previous_parse_result;
        let ghost keep = |row: RowView|
            has_columns(row, encode_utf8(prefix@), non_null_columns@, non_null_columns@.len());
        let mut res: Vec<JsonArrayEntries<'arena>> = Vec::with_capacity(rows.len());
        let mut i: usize = 0;
        proof {
            reveal(Seq::filter);
            assert(rows_view(rows@).take(0) =~= Seq::<RowView>::empty());
            assert(rows_view(res@) =~= Seq::<RowView>::empty());
        }
        while i < rows.len()
            invariant
                i <= rows@.len(),
                keep == |row: RowView|
                    has_columns(row, encode_utf8(prefix@), non_null_columns@, non_null_columns@.len()),
                rows_view(res@) == rows_view(rows@).take(i as int).filter(keep),
            decreases rows@.len() - i,
        {
            let row = &rows[i];
            let mut should_add_row = true;
            let mut c: usize = 0;
            while c < non_null_columns.len() && should_add_row
                invariant
                    c <= non_null_columns@.len(),
                    should_add_row ==> has_columns(
                        row@,
                        encode_utf8(prefix@),
                        non_null_columns@,
                        c as nat,
                    ),
                    !should_add_row ==> !has_columns(
                        row@,
                        encode_utf8(prefix@),
                        non_null_columns@,
                        non_null_columns@.len(),
                    ),
                decreases non_null_columns@.len() - c,
            {
                let mut pointer_to_find: Vec<u8> = Vec::new();
                extend_bytes(&mut pointer_to_find, prefix.as_bytes());
                pointer_to_find.push(SLASH);
                push_decimal(&mut pointer_to_find, row.index());
                extend_bytes(&mut pointer_to_find, non_null_columns[c].as_str().as_bytes());
                assert(pointer_to_find@ =~= column_pointer(
                    encode_utf8(prefix@),
                    row@.index,
                    encode_utf8(non_null_columns@[c as int]@),
                ));
                let filled = match row.find_place(pointer_to_find.as_slice()) {
                    Some(place) => {
                        let held = row.entries();
                        assert(entry_view(held@[place as int]) == flat_view(held@)[place as int]);
                        held[place].1.is_some()
                    },
                    None => false,
                };
                assert(filled == has_value(
                    row@.entries,
                    column_pointer(
                        encode_utf8(prefix@),
                        row@.index,
                        encode_utf8(non_null_columns@[c as int]@),
                    ),
                ));
                if !filled {
                    should_add_row = false;
                }
                c += 1;
            }
            proof {
                reveal(Seq::filter);
                let all = rows_view(rows@);
                assert(all.take(i + 1).drop_last() =~= all.take(i as int));
                assert(all.take(i + 1).last() == row@);
                assert(keep(row@) == should_add_row);
            }
            if should_add_row {
                let ghost before = rows_view(res@);
                res.push(row.clone());
                assert(rows_view(res@) =~= before.push(row@));
            }
            i += 1;
        }
        assert(rows_view(rows@).take(i as int) =~= rows_view(rows@));
        res
    }
}

/// The bytes as a string slice, where they are well-formed UTF-8.
pub fn string_from_bytes(bytes: &[u8]) -> (r: Option<&str>)
    ensures
        r is Some <==> valid_utf8(bytes@),
        r matches Some(s) ==> encode_utf8(s@) == bytes@,
{
    crate::arena::from_utf8(bytes)
}

} // verus!
