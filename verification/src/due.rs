//! The due-date column leans on an outside date-time library: a due token
//! is parsed as RFC 3339 and normalized to UTC. The codec treats the
//! normalized text as the due date's value.

use vstd::prelude::*;

verus! {

/// What the date-time library computes for a due token: `Some` of the
/// UTC-normalized RFC 3339 text when the token is valid RFC 3339 text,
/// `None` otherwise. The result depends on the characters of the token
/// alone.
pub uninterp spec fn rfc3339_utc(s: Seq<char>) -> Option<Seq<char>>;

/// Relies on chrono's `DateTime::parse_from_rfc3339`, `with_timezone` and
/// `to_rfc3339`: parsing succeeds exactly on valid RFC 3339 text and depends
/// on the characters alone; the reprinted UTC form has the shape
/// `year-month-dayThour:minute:second` with fraction and `+00:00` offset,
/// so it has at least 20 characters, none of them a tab or a newline.
#[verifier::external_body]
pub(crate) fn rfc3339_to_utc(token: &str) -> (r: Option<String>)
    ensures
        r is Some <==> rfc3339_utc(token@) is Some,
        r matches Some(s) ==> rfc3339_utc(token@) == Some(s@),
        r matches Some(s) ==> s@.len() >= 20,
        r matches Some(s) ==> forall|i: int|
            0 <= i < s@.len() ==> #[trigger] s@[i] != '\t' && s@[i] != '\n',
{
    match chrono::DateTime::parse_from_rfc3339(token) {
        Ok(d) => Some(d.with_timezone(&chrono::Utc).to_rfc3339()),
        Err(_) => None,
    }
}

} // verus!
