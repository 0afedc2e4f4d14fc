//! Classification of event kinds, as the protocol library defines it.
use vstd::prelude::*;

verus! {

/// Kinds for which only the newest event per author is kept.
pub open spec fn spec_is_replaceable(kind: u16) -> bool {
    kind == 0 || kind == 3 || kind == 41 || (10_000 <= kind && kind < 20_000)
}

/// Kinds for which only the newest event per author and `d` tag is kept.
pub open spec fn spec_is_addressable(kind: u16) -> bool {
    30_000 <= kind && kind < 40_000
}

/// Kinds whose events go through the coalescing buffer.
pub open spec fn spec_is_coalesced(kind: u16) -> bool {
    spec_is_replaceable(kind) || spec_is_addressable(kind)
}

/// Relies on nostr's `Kind::is_replaceable`: metadata (0), contact list (3),
/// channel metadata (41) and the range 10000..20000.
#[verifier::external_body]
fn nostr_is_replaceable(kind: u16) -> (r: bool)
    ensures
        r == spec_is_replaceable(kind),
{
    nostr::event::Kind::from_u16(kind).is_replaceable()
}

/// Relies on nostr's `Kind::is_addressable`: the range 30000..40000.
#[verifier::external_body]
fn nostr_is_addressable(kind: u16) -> (r: bool)
    ensures
        r == spec_is_addressable(kind),
{
    nostr::event::Kind::from_u16(kind).is_addressable()
}

/// Whether events of this kind are replaceable or addressable.
pub fn is_coalesced_kind(kind: u16) -> (r: bool)
    ensures
        r == spec_is_coalesced(kind),
{
    nostr_is_replaceable(kind) || nostr_is_addressable(kind)
}

} // verus!
