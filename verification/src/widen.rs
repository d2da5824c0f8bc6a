use vstd::prelude::*;
use crate::error::ParseError;
use crate::flatten::{FlatEntry, Policy};
use crate::parser::flatten_document;
use crate::ValueType;

verus! {

/// True for the entry of an object that was left as text because it stands
/// at the depth `reached`, down to which the result was flattened.
pub open spec fn is_deferred(e: FlatEntry, reached: u8) -> bool {
    e.value_type == ValueType::Object && e.depth == reached
}

/// What takes the place of one entry when a result is widened. Every
/// entry stays. A deferred entry that holds text is followed by the entries
/// of that text, flattened one level deeper under the pointer of the entry;
/// a deferred entry without text has nothing to follow it.
pub open spec fn widen_entry(
    e: FlatEntry,
    reached: u8,
    policy: Policy,
    start_at: Option<Seq<u8>>,
) -> Result<Seq<FlatEntry>, ParseError> {
    if is_deferred(e, reached) {
        match e.value {
            None => Ok(seq![e]),
            Some(text) => match flatten_document(
                text,
                0,
                policy,
                e.pointer,
                start_at,
                (e.depth + 1) as u8,
            ) {
                Err(err) => Err(err),
                Ok((inner, _)) => Ok(seq![e] + inner),
            },
        }
    } else {
        Ok(seq![e])
    }
}

/// The first `n` entries widened, one after the other; the error of the
/// first entry whose text cannot be flattened.
pub open spec fn widen_entries(
    entries: Seq<FlatEntry>,
    n: nat,
    reached: u8,
    policy: Policy,
    start_at: Option<Seq<u8>>,
) -> Result<Seq<FlatEntry>, ParseError>
    decreases n,
{
    if n == 0 || n > entries.len() {
        Ok(Seq::empty())
    } else {
        match widen_entries(entries, (n - 1) as nat, reached, policy, start_at) {
            Err(err) => Err(err),
            Ok(done) => match widen_entry(entries[n - 1], reached, policy, start_at) {
                Err(err) => Err(err),
                Ok(more) => Ok(done + more),
            },
        }
    }
}

/// The entries of a result that was flattened down to `reached`, once it
/// is flattened down to `policy.max_depth`: the entries as they are where
/// that is no deeper.
pub open spec fn widened(
    entries: Seq<FlatEntry>,
    reached: u8,
    policy: Policy,
    start_at: Option<Seq<u8>>,
) -> Result<Seq<FlatEntry>, ParseError> {
    if reached < policy.max_depth {
        widen_entries(entries, entries.len(), reached, policy, start_at)
    } else {
        Ok(entries)
    }
}

/// The depth down to which a result is flattened once it was widened.
pub open spec fn depth_after(reached: u8, policy: Policy) -> u8 {
    if reached < policy.max_depth {
        policy.max_depth
    } else {
        reached
    }
}

/// An error among the first entries is the error of the whole.
pub proof fn lemma_widen_error_stays(
    entries: Seq<FlatEntry>,
    n: nat,
    m: nat,
    reached: u8,
    policy: Policy,
    start_at: Option<Seq<u8>>,
)
    requires
        n <= m <= entries.len(),
        widen_entries(entries, n, reached, policy, start_at) is Err,
    ensures
        widen_entries(entries, m, reached, policy, start_at) == widen_entries(
            entries,
            n,
            reached,
            policy,
            start_at,
        ),
    decreases m - n,
{
    if n < m {
        lemma_widen_error_stays(entries, n, (m - 1) as nat, reached, policy, start_at);
    }
}

} // verus!
