use crate::goal::GoalKey;
use rustc_hash::FxHashMap;
use vstd::prelude::*;

verus! {

/// `rustc_hash::FxHasher`, the hasher of an `FxHashMap`. Nothing is said of
/// it: it is named so that maps that hash with it can be held.
#[verifier::external_type_specification]
#[verifier::external_body]
pub struct ExFxHasher(rustc_hash::FxHasher);

/// `core::hash::BuildHasherDefault`, which makes the hashers of an
/// `FxHashMap`. Nothing is said of it.
#[verifier::external_type_specification]
#[verifier::external_body]
#[verifier::reject_recursive_types(H)]
pub struct ExBuildHasherDefault<H>(core::hash::BuildHasherDefault<H>);

/// Whether `value` is below `bound`.
pub fn is_below(value: usize, bound: usize) -> (r: bool)
    ensures
        r == (value < bound),
{
    value < bound
}

/// What is left of `m` when only the keys whose value is below `bound` are
/// kept.
pub open spec fn kept_below(m: Map<GoalKey, usize>, bound: usize) -> Map<GoalKey, usize> {
    Map::new(|k: GoalKey| m.contains_key(k) && m[k] < bound, |k: GoalKey| m[k])
}

/// `FxHashMap::default`: a map that holds nothing.
#[verifier::external_body]
pub(crate) fn fx_new<V>() -> (m: FxHashMap<GoalKey, V>)
    ensures
        (m@ == Map::<GoalKey, V>::empty()),
{
    FxHashMap::default()
}

/// `HashMap::get` on an `FxHashMap`: the value stored under `key`, if there
/// is one.
#[verifier::external_body]
pub(crate) fn fx_get<'a, V>(m: &'a FxHashMap<GoalKey, V>, key: &GoalKey) -> (r: Option<&'a V>)
    ensures
        r == (if m@.contains_key(*key) {
            Some(&m@[*key])
        } else {
            None
        }),
{
    m.get(key)
}

/// `HashMap::insert` on an `FxHashMap`: stores `value` under `key`, in place
/// of what was there, which it gives back.
#[verifier::external_body]
pub(crate) fn fx_insert<V>(m: &mut FxHashMap<GoalKey, V>, key: GoalKey, value: V) -> (r: Option<V>)
    ensures
        final(m)@ == old(m)@.insert(key, value),
        r == (if old(m)@.contains_key(key) {
            Some(old(m)@[key])
        } else {
            None
        }),
{
    m.insert(key, value)
}

/// `HashMap::retain` on an `FxHashMap`, with the test that a value is below
/// `bound`: every other pair is removed, and those that stay are unchanged.
#[verifier::external_body]
pub(crate) fn fx_retain_below(m: &mut FxHashMap<GoalKey, usize>, bound: usize)
    ensures
        final(m)@ == kept_below(old(m)@, bound),
{
    m.retain(|_key, value| is_below(*value, bound));
}

} // verus!
