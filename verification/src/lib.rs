//! Verified core of a family of TCP/WebSocket evasion proxies.
//!
//! Each transport mirrors a downstream byte stream to an upstream resource.
//! The logic that decides what is sent, in which order and in which pieces is
//! verified here; the listeners, sockets and HTTP plumbing around it live in
//! the unverified application layer, which feeds this library plain values.

use vstd::prelude::*;

pub mod browser;
pub mod curl;
pub mod scanner;
pub mod splithttp;

verus! {

/// A lowercase hexadecimal digit.
pub open spec fn is_lower_hex(c: char) -> bool {
    ('0' <= c && c <= '9') || ('a' <= c && c <= 'f')
}

/// The canonical text form of a 128-bit identifier: 36 characters, lowercase
/// hexadecimal with hyphens at positions 8, 13, 18 and 23.
pub open spec fn is_id_text(s: Seq<char>) -> bool {
    &&& s.len() == 36
    &&& forall|i: int| 0 <= i < 36 ==> ((#[trigger] s[i]) == '-' <==> (i == 8 || i == 13 || i == 18
        || i == 23))
    &&& forall|i: int| 0 <= i < 36 && s[i] != '-' ==> is_lower_hex(#[trigger] s[i])
}

/// Relies on uuid::Uuid::new_v4 and its Display form: a random version-4
/// value rendered hyphenated, 36 ASCII characters of lowercase hexadecimal
/// with hyphens at positions 8, 13, 18 and 23. The value is random, so
/// nothing more can be promised of it.
#[verifier::external_body]
pub(crate) fn fresh_id_text() -> (r: String)
    ensures
        is_id_text(r@),
{
    uuid::Uuid::new_v4().to_string()
}

} // verus!
