//! Trusted declarations of the concurrent collections the store and the
//! tracking cycle keep their shared state in, with contracts over their
//! abstract contents.
//!
//! The collections come from the `dashmap` crate, hashed with `ahash`; the
//! library reads and writes them through the wrappers below, whose contracts
//! state what each call does to the contents.

use vstd::prelude::*;

verus! {

#[verifier::external_type_specification]
#[verifier::external_body]
pub struct ExRandomState(ahash::RandomState);

#[verifier::external_type_specification]
#[verifier::external_body]
#[verifier::reject_recursive_types(K)]
#[verifier::reject_recursive_types(S)]
pub struct ExDashSet<K, S>(dashmap::DashSet<K, S>);

#[verifier::external_type_specification]
#[verifier::external_body]
#[verifier::reject_recursive_types(K)]
#[verifier::reject_recursive_types(V)]
#[verifier::reject_recursive_types(S)]
pub struct ExDashMap<K, V, S>(dashmap::DashMap<K, V, S>);

/// The set of identifiers a concurrent identifier set holds.
pub uninterp spec fn dash_set_ids(s: dashmap::DashSet<u64, ahash::RandomState>) -> Set<u64>;

/// Relies on dashmap::DashSet::with_hasher (and ahash::RandomState::new):
/// a newly built set is empty.
#[verifier::external_body]
pub fn dash_set_new() -> (s: dashmap::DashSet<u64, ahash::RandomState>)
    ensures
        dash_set_ids(s) == Set::<u64>::empty(),
{
    dashmap::DashSet::with_hasher(ahash::RandomState::new())
}

/// Relies on dashmap::DashSet::insert: adds the value and reports whether it
/// was absent.
#[verifier::external_body]
pub(crate) fn dash_set_insert(s: &mut dashmap::DashSet<u64, ahash::RandomState>, v: u64) -> (r: bool)
    ensures
        dash_set_ids(*final(s)) == dash_set_ids(*old(s)).insert(v),
        r == !dash_set_ids(*old(s)).contains(v),
{
    s.insert(v)
}

/// Relies on dashmap::DashSet::contains.
#[verifier::external_body]
pub fn dash_set_contains(s: &dashmap::DashSet<u64, ahash::RandomState>, v: u64) -> (r: bool)
    ensures
        r == dash_set_ids(*s).contains(v),
{
    s.contains(&v)
}

/// Relies on dashmap::DashSet::remove: drops the value and reports whether it
/// was present.
#[verifier::external_body]
pub(crate) fn dash_set_remove(s: &mut dashmap::DashSet<u64, ahash::RandomState>, v: u64) -> (r: bool)
    ensures
        dash_set_ids(*final(s)) == dash_set_ids(*old(s)).remove(v),
        r == dash_set_ids(*old(s)).contains(v),
{
    s.remove(&v).is_some()
}

} // verus!
