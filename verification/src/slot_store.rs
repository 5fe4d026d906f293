//! The backing slot store: a generation-tagged arena from the
//! `generational_arena` crate, seen through a small trusted surface.
//!
//! Each occupied slot holds one entry, a pair of the stored string and its
//! usage counter. The store's contents are abstracted by [`store_view`]: a
//! map from a slot's raw parts (position and generation) to the entry it
//! holds. Every operation of the arena that the container uses is wrapped in
//! a function whose contract states, over that map, what the arena's source
//! shows.

use vstd::prelude::*;
use generational_arena::Arena;
use generational_arena::Index;

verus! {

#[verifier::external_type_specification]
#[verifier::external_body]
#[verifier::reject_recursive_types(T)]
pub struct ExArena<T>(Arena<T>);

/// Identifier of a slot in the backing store: the slot's position together
/// with the generation that distinguishes the current occupant from any
/// earlier one. A stale identifier (one whose slot was reclaimed, possibly
/// reused under a higher generation) no longer resolves.
#[derive(Clone, Copy, PartialEq, Eq, Structural, Debug, Hash)]
pub struct SlotId {
    pub index: usize,
    pub generation: u64,
}

impl View for SlotId {
    type V = (int, int);

    open spec fn view(&self) -> (int, int) {
        (self.index as int, self.generation as int)
    }
}

/// What the arena holds: for each occupied slot, keyed by the raw parts of
/// its index, the stored string and the usage counter beside it.
pub uninterp spec fn store_view(a: Arena<(String, usize)>) -> Map<(int, int), (Seq<char>, nat)>;

/// The contents of a store with no occupied slots.
pub open spec fn store_view_empty() -> Map<(int, int), (Seq<char>, nat)> {
    Map::empty()
}

/// Relies on generational_arena::Arena::new: a new arena has no occupied
/// slots.
#[verifier::external_body]
pub(crate) fn store_new() -> (a: Arena<(String, usize)>)
    ensures
        store_view(a) == store_view_empty(),
{
    Arena::new()
}

/// Relies on generational_arena::Arena::len: the number of occupied slots.
#[verifier::external_body]
pub(crate) fn store_len(a: &Arena<(String, usize)>) -> (n: usize)
    ensures
        n == store_view(*a).dom().len(),
{
    a.len()
}

/// Relies on generational_arena::Arena::insert: the value is placed in a slot
/// that was not occupied before (a reused position carries a fresh, higher
/// generation), and every other slot is unchanged. The returned index is
/// taken apart with Index::into_raw_parts.
#[verifier::external_body]
pub(crate) fn store_insert(a: &mut Arena<(String, usize)>, elem: String, cnt: usize) -> (s: SlotId)
    ensures
        !store_view(*old(a)).dom().contains(s@),
        store_view(*final(a)) == store_view(*old(a)).insert(s@, (elem@, cnt as nat)),
{
    let idx = a.insert((elem, cnt));
    let (index, generation) = idx.into_raw_parts();
    SlotId { index, generation }
}

/// Relies on generational_arena::Arena::get: `Some` exactly for an occupied
/// slot whose generation matches, returning a reference to its entry. The
/// index is rebuilt with Index::from_raw_parts.
#[verifier::external_body]
pub(crate) fn store_get<'a>(a: &'a Arena<(String, usize)>, s: SlotId) -> (r: Option<
    &'a (String, usize),
>)
    ensures
        match r {
            Some(e) => store_view(*a).dom().contains(s@) && store_view(*a)[s@] == (e.0@, e.1 as nat),
            None => !store_view(*a).dom().contains(s@),
        },
{
    a.get(Index::from_raw_parts(s.index, s.generation))
}

/// Relies on generational_arena::Arena::get_mut: `Some` exactly for an
/// occupied slot whose generation matches. On success the entry's counter is
/// replaced by the given one; the stored string and every other slot are
/// unchanged.
#[verifier::external_body]
pub(crate) fn store_set_cnt(a: &mut Arena<(String, usize)>, s: SlotId, cnt: usize) -> (r: bool)
    ensures
        r == store_view(*old(a)).dom().contains(s@),
        r ==> store_view(*final(a)) == store_view(*old(a)).insert(
            s@,
            (store_view(*old(a))[s@].0, cnt as nat),
        ),
        !r ==> store_view(*final(a)) == store_view(*old(a)),
{
    match a.get_mut(Index::from_raw_parts(s.index, s.generation)) {
        Some(e) => {
            e.1 = cnt;
            true
        },
        None => false,
    }
}

/// Relies on generational_arena::Arena::remove: removes and returns the
/// slot's entry if the slot is occupied and the generation matches, leaving
/// every other slot unchanged; `None` otherwise.
#[verifier::external_body]
pub(crate) fn store_remove(a: &mut Arena<(String, usize)>, s: SlotId) -> (r: Option<
    (String, usize),
>)
    ensures
        match r {
            Some(e) => store_view(*old(a)).dom().contains(s@) && store_view(*old(a))[s@] == (
                e.0@,
                e.1 as nat,
            ) && store_view(*final(a)) == store_view(*old(a)).remove(s@),
            None => !store_view(*old(a)).dom().contains(s@) && store_view(*final(a)) == store_view(
                *old(a),
            ),
        },
{
    a.remove(Index::from_raw_parts(s.index, s.generation))
}

/// Relies on generational_arena::Arena::iter: it visits each occupied slot
/// exactly once. The yielded indices are taken apart with
/// Index::into_raw_parts; the entries themselves are not handed out here.
#[verifier::external_body]
pub(crate) fn store_slots(a: &Arena<(String, usize)>) -> (r: Vec<SlotId>)
    ensures
        forall|i: int| 0 <= i < r@.len() ==> store_view(*a).dom().contains(#[trigger] r@[i]@),
        forall|k: (int, int)|
            store_view(*a).dom().contains(k) ==> exists|i: int| 0 <= i < r@.len() && r@[i]@ == k,
        forall|i: int, j: int| 0 <= i < j < r@.len() ==> r@[i]@ != r@[j]@,
{
    a.iter().map(
        |p: (Index, &(String, usize))| {
            let (index, generation) = p.0.into_raw_parts();
            SlotId { index, generation }
        },
    ).collect()
}

} // verus!
