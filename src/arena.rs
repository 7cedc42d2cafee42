//! The vertex store: `generational_arena::Arena<u32>` seen through a map
//! from raw index parts to payloads.
use vstd::prelude::*;
use crate::listing::lists_exactly;

verus! {

#[verifier::external_type_specification]
#[verifier::external_body]
#[verifier::reject_recursive_types(T)]
pub struct ExArena<T>(generational_arena::Arena<T>);

/// What an arena holds: each occupied slot, keyed by its index and
/// generation, with the payload stored there.
pub uninterp spec fn arena_items(a: generational_arena::Arena<u32>) -> Map<(usize, u64), u32>;

/// The arena's generation counter: what `insert` stamps on a new entry's
/// index, and what each successful `remove` increments.
pub uninterp spec fn arena_generation(a: generational_arena::Arena<u32>) -> u64;

/// Relies on `Arena::new`: a new arena holds nothing and starts at
/// generation 0.
#[verifier::external_body]
pub(crate) fn arena_new() -> (r: generational_arena::Arena<u32>)
    ensures
        arena_items(r) =~= Map::empty(),
        arena_generation(r) == 0,
{
    generational_arena::Arena::new()
}

/// Relies on `Arena::insert`: the value goes into a free slot, under an
/// index that no occupied slot has, stamped with the current generation,
/// which stays as it was; every other slot is kept.
#[verifier::external_body]
pub(crate) fn arena_insert(a: &mut generational_arena::Arena<u32>, v: u32) -> (r: (usize, u64))
    ensures
        !arena_items(*old(a)).contains_key(r),
        arena_items(*final(a)) == arena_items(*old(a)).insert(r, v),
        r.1 == arena_generation(*old(a)),
        arena_generation(*final(a)) == arena_generation(*old(a)),
{
    a.insert(v).into_raw_parts()
}

/// Relies on `Arena::get`: the payload under an index whose slot is occupied
/// by that generation, else nothing.
#[verifier::external_body]
pub(crate) fn arena_get(a: &generational_arena::Arena<u32>, i: (usize, u64)) -> (r: Option<u32>)
    ensures
        r == (if arena_items(*a).contains_key(i) {
            Some(arena_items(*a)[i])
        } else {
            None::<u32>
        }),
{
    a.get(generational_arena::Index::from_raw_parts(i.0, i.1)).copied()
}

/// Relies on `Arena::remove`: the entry under the index leaves, if it is
/// there, and then the generation goes up by one (which would overflow at
/// the largest `u64`); nothing else changes.
#[verifier::external_body]
pub(crate) fn arena_remove(a: &mut generational_arena::Arena<u32>, i: (usize, u64)) -> (r: Option<u32>)
    requires
        arena_generation(*old(a)) < u64::MAX,
    ensures
        arena_items(*final(a)) == arena_items(*old(a)).remove(i),
        arena_generation(*final(a)) == (if arena_items(*old(a)).contains_key(i) {
            (arena_generation(*old(a)) + 1) as u64
        } else {
            arena_generation(*old(a))
        }),
        r == (if arena_items(*old(a)).contains_key(i) {
            Some(arena_items(*old(a))[i])
        } else {
            None::<u32>
        }),
{
    a.remove(generational_arena::Index::from_raw_parts(i.0, i.1))
}

/// Relies on `Arena::len`: the number of occupied slots.
#[verifier::external_body]
pub(crate) fn arena_len(a: &generational_arena::Arena<u32>) -> (r: usize)
    ensures
        r == arena_items(*a).len(),
{
    a.len()
}

/// Relies on `Arena::iter`: each occupied slot once, with its index and
/// payload, in slot order.
#[verifier::external_body]
pub(crate) fn arena_entries(a: &generational_arena::Arena<u32>) -> (r: Vec<((usize, u64), u32)>)
    ensures
        lists_exactly(r@, arena_items(*a)),
{
    a.iter().map(|(i, v)| (i.into_raw_parts(), *v)).collect()
}

} // verus!
