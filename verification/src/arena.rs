use vstd::prelude::*;

verus! {

/// `bumpalo::Bump`, the arena that owns every pointer string of a result.
#[verifier::external_type_specification]
#[verifier::external_body]
pub struct ExBump<const MIN_ALIGN: usize>(bumpalo::Bump<MIN_ALIGN>);

/// `bumpalo::Bump::alloc_str`: copies `text` into the arena and hands back
/// the copy, which lives as long as the arena does. The copy reads as
/// `text` does. As any allocation, the call does not come back where no
/// memory can be had, which includes an arena on which the caller has set
/// a limit that the copy would pass.
#[verifier::external_body]
pub(crate) fn alloc_str<'arena>(arena: &'arena bumpalo::Bump, text: &str) -> (r: &'arena str)
    ensures
        r@ == text@,
{
    arena.alloc_str(text)
}

/// `simdutf8::basic::from_utf8`: the bytes as a string slice when they are
/// well-formed UTF-8, nothing when they are not.
#[verifier::external_body]
pub(crate) fn from_utf8(bytes: &[u8]) -> (r: Option<&str>)
    ensures
        r is Some <==> vstd::utf8::valid_utf8(bytes@),
        r matches Some(s) ==> vstd::utf8::encode_utf8(s@) == bytes@,
{
    simdutf8::basic::from_utf8(bytes).ok()
}

} // verus!
