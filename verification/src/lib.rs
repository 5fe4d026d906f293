//! A deduplicating set of strings that is also addressable by lightweight,
//! reference-counted handles.
//!
//! Each distinct value is stored once, in a slot of a generation-tagged
//! backing store. A value index maps a value's hash to the slots holding
//! entries with that hash, so lookup by value needs no second copy of the
//! value. Every entry carries a usage counter: handles are issued by insert
//! and lookup, duplicated by [`IndexedHashSet::clone_index`], and given back
//! with [`IndexedHashSet::drop_index`]; each such step moves the counter by
//! one. Entries whose counter is zero stay in place until
//! [`IndexedHashSet::drop_unused`] is called, which sweeps them out.

use vstd::prelude::*;

use std::collections::HashMap;

pub mod internal_ref;
pub mod slot_store;

use crate::internal_ref::fnv;
use crate::internal_ref::hash_str;
use crate::internal_ref::str_eq;
use crate::internal_ref::InternalRef;
use crate::slot_store::store_get;
use crate::slot_store::store_insert;
use crate::slot_store::store_len;
use crate::slot_store::store_new;
use crate::slot_store::store_remove;
use crate::slot_store::store_set_cnt;
use crate::slot_store::store_slots;
use crate::slot_store::store_view;
use crate::slot_store::SlotId;

verus! {

broadcast use vstd::std_specs::hash::group_hash_axioms;

/// The abstract contents of a container: for each live slot, keyed by its
/// position and generation, the stored value and its usage counter.
pub type Contents = Map<(int, int), (Seq<char>, nat)>;

/// Whether some live entry holds the value `v`.
pub open spec fn contains_value(m: Contents, v: Seq<char>) -> bool {
    exists|k: (int, int)| #[trigger] m.dom().contains(k) && m[k].0 == v
}

/// The slot of the live entry holding the value `v`, where one exists.
pub open spec fn slot_of(m: Contents, v: Seq<char>) -> (int, int) {
    choose|k: (int, int)| #[trigger] m.dom().contains(k) && m[k].0 == v
}

/// The usage counter of the live entry holding the value `v`, where one
/// exists.
pub open spec fn count_of(m: Contents, v: Seq<char>) -> nat {
    m[slot_of(m, v)].1
}

/// No two live entries hold equal values.
pub open spec fn unique_values(m: Contents) -> bool {
    forall|k1: (int, int), k2: (int, int)|
        m.dom().contains(k1) && m.dom().contains(k2) && m[k1].0 == m[k2].0 ==> k1 == k2
}

/// The values of the entries whose counter is not zero: what an iteration
/// yields.
pub open spec fn used_values(m: Contents) -> Set<Seq<char>> {
    Set::new(|v: Seq<char>| exists|k: (int, int)| #[trigger] m.dom().contains(k) && m[k].0 == v && m[k].1 != 0)
}

/// The entries whose counter is not zero: what a reclamation pass keeps.
pub open spec fn used_part(m: Contents) -> Contents {
    m.restrict(m.dom().filter(|k: (int, int)| m[k].1 != 0))
}

/// A reference-counted index to an entry of the set.
///
/// One `RcIndex` stands for one unit of the entry's usage counter: issuing
/// one (by insert or lookup) or duplicating one with
/// [`IndexedHashSet::clone_index`] raises the counter by one, and giving one
/// back with [`IndexedHashSet::drop_index`] lowers it by one. An `RcIndex`
/// cannot be copied any other way, so the counter never drifts from the
/// number of indices that are still outstanding.
#[derive(Debug)]
pub struct RcIndex {
    slot: SlotId,
}

impl View for RcIndex {
    type V = (int, int);

    closed spec fn view(&self) -> (int, int) {
        self.slot@
    }
}

/// An indexed hash set: a deduplicating set of strings whose entries can be
/// reached either by value or through a reference-counted index.
#[derive(Debug)]
pub struct IndexedHashSet {
    /// The backing store of entries.
    arena: generational_arena::Arena<(String, usize)>,
    /// The value index: for each hash, the internal references to the
    /// entries whose value has that hash.
    map: HashMap<u64, Vec<InternalRef>>,
}

impl View for IndexedHashSet {
    type V = Contents;

    closed spec fn view(&self) -> Contents {
        store_view(self.arena)
    }
}

/// A bucket of the value index is sound for hash `h`: every reference in it
/// points at a live slot whose value hashes to `h`, and no slot is listed
/// twice.
spec fn bucket_wf(m: Contents, b: Seq<InternalRef>, h: u64) -> bool {
    &&& forall|i: int|
        0 <= i < b.len() ==> {
            &&& m.dom().contains((#[trigger] b[i]).slot@)
            &&& b[i].hash == h
            &&& fnv(m[b[i].slot@].0) == h
        }
    &&& forall|i: int, j: int| 0 <= i < j < b.len() ==> b[i].slot@ != b[j].slot@
}

/// The bucket lists the slot `k`.
spec fn bucket_has(b: Seq<InternalRef>, k: (int, int)) -> bool {
    exists|i: int| 0 <= i < b.len() && (#[trigger] b[i]).slot@ == k
}

impl IndexedHashSet {
    /// The container is well formed: finitely many entries, no value stored
    /// twice, and the value index lists exactly the live slots, each under
    /// its value's hash.
    pub closed spec fn wf(&self) -> bool {
        &&& self@.dom().finite()
        &&& unique_values(self@)
        &&& forall|h: u64| #[trigger]
            self.map@.contains_key(h) ==> bucket_wf(self@, self.map@[h]@, h)
        &&& forall|k: (int, int)| #[trigger]
            self@.dom().contains(k) ==> {
                &&& self.map@.contains_key(fnv(self@[k].0))
                &&& bucket_has(self.map@[fnv(self@[k].0)]@, k)
            }
    }

    /// A new, empty set.
    pub fn new() -> (r: Self)
        ensures
            r.wf(),
            r@ == Map::<(int, int), (Seq<char>, nat)>::empty(),
    {
        IndexedHashSet { arena: store_new(), map: HashMap::new() }
    }

    /// Number of entries in the set, including the unused ones.
    pub fn len(&self) -> (n: usize)
        ensures
            n == self@.dom().len(),
    {
        store_len(&self.arena)
    }

    /// The slot of the live entry whose value equals `elem`, found through
    /// the value index: the query is hashed once, and the candidates in the
    /// hash's bucket are compared against the query value itself.
    fn find_slot(&self, elem: &str) -> (r: Option<SlotId>)
        requires
            self.wf(),
        ensures
            match r {
                Some(s) => self@.dom().contains(s@) && self@[s@].0 == elem@,
                None => !contains_value(self@, elem@),
            },
    {
        let h = hash_str(elem);
        let bucket = match self.map.get(&h) {
            Some(b) => b,
            None => {
                proof {
                    if contains_value(self@, elem@) {
                        let k = choose|k: (int, int)| #[trigger]
                            self@.dom().contains(k) && self@[k].0 == elem@;
                        assert(self.map@.contains_key(fnv(self@[k].0)));
                    }
                }
                return None;
            },
        };
        let n = bucket.len();
        let mut i: usize = 0;
        while i < n
            invariant
                self.wf(),
                h == fnv(elem@),
                self.map@.contains_key(h),
                bucket@ == self.map@[h]@,
                n == bucket@.len(),
                i <= n,
                forall|j: int| 0 <= j < i ==> self@[(#[trigger] bucket@[j]).slot@].0 != elem@,
            decreases n - i,
        {
            let iref = bucket[i];
            match store_get(&self.arena, iref.slot) {
                Some(e) => {
                    if str_eq(e.0.as_str(), elem) {
                        return Some(iref.slot);
                    }
                },
                None => {
                    proof {
                        assert(false);
                    }
                },
            }
            i = i + 1;
        }
        proof {
            if contains_value(self@, elem@) {
                let k = choose|k: (int, int)| #[trigger]
                    self@.dom().contains(k) && self@[k].0 == elem@;
                assert(fnv(self@[k].0) == h);
                assert(bucket_has(self.map@[h]@, k));
                let j = choose|j: int|
                    0 <= j < bucket@.len() && (#[trigger] bucket@[j]).slot@ == k;
                assert(self@[bucket@[j].slot@].0 == elem@);
            }
        }
        None
    }

    /// Get a reference to the stored element equal to `elem`, if one is
    /// present, without touching any usage counter.
    pub fn get_ref_by_hash<'a>(&'a self, elem: &str) -> (r: Option<&'a String>)
        requires
            self.wf(),
        ensures
            match r {
                Some(v) => contains_value(self@, elem@) && v@ == elem@,
                None => !contains_value(self@, elem@),
            },
    {
        match self.find_slot(elem) {
            Some(s) => match store_get(&self.arena, s) {
                Some(e) => Some(&e.0),
                None => vstd::pervasive::unreached(),
            },
            None => None,
        }
    }

    /// Counter updates leave well-formedness intact: they touch neither the
    /// set of live slots, nor any stored value, nor the value index.
    proof fn lemma_cnt_update_wf(pre: Self, post: Self, k: (int, int), c: nat)
        requires
            pre.wf(),
            pre@.dom().contains(k),
            post@ == pre@.insert(k, (pre@[k].0, c)),
            post.map@ == pre.map@,
        ensures
            post.wf(),
    {
        assert(post@.dom() =~= pre@.dom());
        assert(forall|j: (int, int)| #[trigger]
            post@.dom().contains(j) ==> post@[j].0 == pre@[j].0);
        assert forall|h: u64| #[trigger] post.map@.contains_key(h) implies bucket_wf(
            post@,
            post.map@[h]@,
            h,
        ) by {
            assert(bucket_wf(pre@, pre.map@[h]@, h));
        }
        assert forall|j: (int, int)| #[trigger] post@.dom().contains(j) implies {
            &&& post.map@.contains_key(fnv(post@[j].0))
            &&& bucket_has(post.map@[fnv(post@[j].0)]@, j)
        } by {
            assert(pre@.dom().contains(j));
            assert(post@[j].0 == pre@[j].0);
        }
    }

    /// Unconditionally insert the element with a usage count of one.
    ///
    /// The caller must have checked that no equal value is present: the
    /// backing store is no set, so inserting twice would break uniqueness.
    fn insert_unchecked(&mut self, elem: String) -> (r: RcIndex)
        requires
            old(self).wf(),
            !contains_value(old(self)@, elem@),
        ensures
            final(self).wf(),
            !old(self)@.dom().contains(r@),
            final(self)@ == old(self)@.insert(r@, (elem@, 1 as nat)),
    {
        let ghost ve = elem@;
        let h = hash_str(elem.as_str());
        let s = store_insert(&mut self.arena, elem, 1);
        let iref = match store_get(&self.arena, s) {
            Some(e) => InternalRef::from_ref(e.0.as_str(), s),
            None => vstd::pervasive::unreached(),
        };
        let mut b = match self.map.remove(&h) {
            Some(bb) => bb,
            None => Vec::new(),
        };
        let ghost b0 = b@;
        b.push(iref);
        self.map.insert(h, b);
        proof {
            let om = old(self)@;
            let nm = self@;
            let omap = old(self).map@;
            let nmap = self.map@;
            assert(nm == om.insert(s@, (ve, 1 as nat)));
            assert(nm.dom() =~= om.dom().insert(s@));
            assert(omap.contains_key(h) ==> b0 == omap[h]@ && bucket_wf(om, b0, h));
            assert(!omap.contains_key(h) ==> b0 == Seq::<InternalRef>::empty());
            assert(nmap == omap.remove(h).insert(h, b));
            assert(nmap[h]@ == b0.push(iref));
            assert(iref.hash == fnv(ve) && iref.slot@ == s@);
            // no stored value was equal to the new one
            assert(forall|k: (int, int)|
                om.dom().contains(k) ==> (#[trigger] om[k]).0 != ve);
            // uniqueness
            assert forall|k1: (int, int), k2: (int, int)|
                nm.dom().contains(k1) && nm.dom().contains(k2) && nm[k1].0 == nm[k2].0
                implies k1 == k2 by {
                if k1 != k2 {
                    if k1 == s@ {
                        assert(om.dom().contains(k2) && om[k2].0 == ve);
                    } else if k2 == s@ {
                        assert(om.dom().contains(k1) && om[k1].0 == ve);
                    } else {
                        assert(om.dom().contains(k1) && om.dom().contains(k2));
                    }
                }
            }
            // every bucket is sound
            assert forall|hh: u64| #[trigger] nmap.contains_key(hh) implies bucket_wf(
                nm,
                nmap[hh]@,
                hh,
            ) by {
                if hh == h {
                    let nb = nmap[h]@;
                    assert forall|i: int| 0 <= i < nb.len() implies {
                        &&& nm.dom().contains((#[trigger] nb[i]).slot@)
                        &&& nb[i].hash == h
                        &&& fnv(nm[nb[i].slot@].0) == h
                    } by {
                        if i < b0.len() {
                            assert(omap.contains_key(h));
                            assert(nb[i] == b0[i]);
                            assert(om.dom().contains(b0[i].slot@));
                            assert(b0[i].slot@ != s@);
                            assert(nm[nb[i].slot@] == om[b0[i].slot@]);
                        } else {
                            assert(nb[i] == iref);
                            assert(nm[s@].0 == ve);
                        }
                    }
                    assert forall|i: int, j: int| 0 <= i < j < nb.len() implies nb[i].slot@
                        != nb[j].slot@ by {
                        if j < b0.len() {
                            assert(omap.contains_key(h));
                            assert(nb[i] == b0[i] && nb[j] == b0[j]);
                        } else {
                            assert(nb[j] == iref);
                            if i < b0.len() {
                                assert(omap.contains_key(h));
                                assert(om.dom().contains(b0[i].slot@));
                            }
                        }
                    }
                } else {
                    assert(omap.contains_key(hh));
                    assert(nmap[hh] == omap[hh]);
                    assert(bucket_wf(om, omap[hh]@, hh));
                    let ob = omap[hh]@;
                    assert forall|i: int| 0 <= i < ob.len() implies {
                        &&& nm.dom().contains((#[trigger] ob[i]).slot@)
                        &&& ob[i].hash == hh
                        &&& fnv(nm[ob[i].slot@].0) == hh
                    } by {
                        assert(om.dom().contains(ob[i].slot@));
                        assert(ob[i].slot@ != s@);
                        assert(nm[ob[i].slot@] == om[ob[i].slot@]);
                    }
                }
            }
            // every live slot is listed under its value's hash
            assert forall|k: (int, int)| #[trigger] nm.dom().contains(k) implies {
                &&& nmap.contains_key(fnv(nm[k].0))
                &&& bucket_has(nmap[fnv(nm[k].0)]@, k)
            } by {
                if k == s@ {
                    assert(nm[k].0 == ve);
                    assert(nmap[h]@[b0.len() as int].slot@ == s@);
                    assert(bucket_has(nmap[h]@, k));
                } else {
                    assert(om.dom().contains(k));
                    let hk = fnv(om[k].0);
                    assert(omap.contains_key(hk) && bucket_has(omap[hk]@, k));
                    assert(nm[k] == om[k]);
                    let j = choose|j: int|
                        0 <= j < omap[hk]@.len() && (#[trigger] omap[hk]@[j]).slot@ == k;
                    if hk == h {
                        assert(nmap[h]@[j] == b0[j]);
                        assert(bucket_has(nmap[h]@, k));
                    } else {
                        assert(nmap[hk] == omap[hk]);
                        assert(bucket_has(nmap[hk]@, k));
                    }
                }
            }
        }
        RcIndex { slot: s }
    }

    /// Insert a new element into the set.
    ///
    /// If an equal element is already present, nothing changes and `None` is
    /// returned; otherwise the index of the new entry, carrying the entry's
    /// first usage, is returned. An index that is given back with
    /// [`IndexedHashSet::drop_index`] without having been duplicated leaves
    /// the new entry's counter at zero, so the entry goes away on the next
    /// [`IndexedHashSet::drop_unused`].
    #[must_use]
    pub fn insert(&mut self, elem: String) -> (r: Option<RcIndex>)
        requires
            old(self).wf(),
        ensures
            final(self).wf(),
            match r {
                Some(idx) => !contains_value(old(self)@, elem@) && !old(self)@.dom().contains(
                    idx@,
                ) && final(self)@ == old(self)@.insert(idx@, (elem@, 1 as nat)),
                None => contains_value(old(self)@, elem@) && final(self)@ == old(self)@,
            },
    {
        match self.find_slot(elem.as_str()) {
            Some(_) => None,
            None => Some(self.insert_unchecked(elem)),
        }
    }

    /// Get the usage count of the element equal to `elem`, if one is
    /// present.
    pub fn get_cnt(&self, elem: &str) -> (r: Option<usize>)
        requires
            self.wf(),
        ensures
            match r {
                Some(c) => contains_value(self@, elem@) && c as nat == count_of(self@, elem@),
                None => !contains_value(self@, elem@),
            },
    {
        match self.find_slot(elem) {
            Some(s) => match store_get(&self.arena, s) {
                Some(e) => {
                    proof {
                        let k = slot_of(self@, elem@);
                        assert(self@.dom().contains(k) && self@[k].0 == elem@);
                        assert(k == s@);
                    }
                    Some(e.1)
                },
                None => vstd::pervasive::unreached(),
            },
            None => None,
        }
    }
    /// Get the index of the stored element equal to `elem`, if one is
    /// present. The found entry's usage count rises by one, carried by the
    /// returned index.
    pub fn get_index_by_hash(&mut self, elem: &str) -> (r: Option<RcIndex>)
        requires
            old(self).wf(),
            forall|k: (int, int)|
                old(self)@.dom().contains(k) && (#[trigger] old(self)@[k]).0 == elem@
                    ==> old(self)@[k].1 < usize::MAX,
        ensures
            final(self).wf(),
            match r {
                Some(idx) => contains_value(old(self)@, elem@) && old(self)@.dom().contains(idx@)
                    && old(self)@[idx@].0 == elem@ && final(self)@ == old(self)@.insert(
                    idx@,
                    (elem@, (old(self)@[idx@].1 + 1) as nat),
                ),
                None => !contains_value(old(self)@, elem@) && final(self)@ == old(self)@,
            },
    {
        match self.find_slot(elem) {
            Some(s) => Some(self.bump_cnt(s)),
            None => None,
        }
    }

    /// Get the index of the element in the set if present. If not, the
    /// element is copied into a new entry and that entry's index is
    /// returned. Either way the returned index carries one fresh usage of
    /// its entry. On a hit the candidate is not copied: only the miss path
    /// pays for a clone.
    pub fn get_or_insert(&mut self, elem: &String) -> (r: RcIndex)
        requires
            old(self).wf(),
            forall|k: (int, int)|
                old(self)@.dom().contains(k) && (#[trigger] old(self)@[k]).0 == elem@
                    ==> old(self)@[k].1 < usize::MAX,
        ensures
            final(self).wf(),
            contains_value(old(self)@, elem@) ==> old(self)@.dom().contains(r@) && old(
                self,
            )@[r@].0 == elem@ && final(self)@ == old(self)@.insert(
                r@,
                (elem@, (old(self)@[r@].1 + 1) as nat),
            ),
            !contains_value(old(self)@, elem@) ==> !old(self)@.dom().contains(r@) && final(self)@
                == old(self)@.insert(r@, (elem@, 1 as nat)),
    {
        match self.find_slot(elem.as_str()) {
            Some(s) => self.bump_cnt(s),
            None => self.insert_unchecked(elem.clone()),
        }
    }

    /// Raise the counter of the entry in slot `s` by one and hand out the
    /// index that stands for that usage.
    fn bump_cnt(&mut self, s: SlotId) -> (r: RcIndex)
        requires
            old(self).wf(),
            old(self)@.dom().contains(s@),
            old(self)@[s@].1 < usize::MAX,
        ensures
            final(self).wf(),
            r@ == s@,
            final(self)@ == old(self)@.insert(
                s@,
                (old(self)@[s@].0, (old(self)@[s@].1 + 1) as nat),
            ),
    {
        let c = match store_get(&self.arena, s) {
            Some(e) => e.1,
            None => vstd::pervasive::unreached(),
        };
        let ok = store_set_cnt(&mut self.arena, s, c + 1);
        proof {
            assert(ok);
            Self::lemma_cnt_update_wf(*old(self), *self, s@, (c + 1) as nat);
        }
        RcIndex { slot: s }
    }

    /// Duplicate an index of this set: the entry's usage count rises by one
    /// and a second index to the same entry is handed out.
    pub fn clone_index(&mut self, idx: &RcIndex) -> (r: RcIndex)
        requires
            old(self).wf(),
            old(self)@.dom().contains(idx@),
            old(self)@[idx@].1 < usize::MAX,
        ensures
            final(self).wf(),
            r@ == idx@,
            final(self)@ == old(self)@.insert(
                idx@,
                (old(self)@[idx@].0, (old(self)@[idx@].1 + 1) as nat),
            ),
    {
        self.bump_cnt(idx.slot)
    }

    /// Give an index back: the entry's usage count falls by one. An entry
    /// whose count reaches zero stays in the set until the next
    /// [`IndexedHashSet::drop_unused`].
    pub fn drop_index(&mut self, idx: RcIndex)
        requires
            old(self).wf(),
            old(self)@.dom().contains(idx@),
            old(self)@[idx@].1 >= 1,
        ensures
            final(self).wf(),
            final(self)@ == old(self)@.insert(
                idx@,
                (old(self)@[idx@].0, (old(self)@[idx@].1 - 1) as nat),
            ),
    {
        let c = match store_get(&self.arena, idx.slot) {
            Some(e) => e.1,
            None => vstd::pervasive::unreached(),
        };
        let ok = store_set_cnt(&mut self.arena, idx.slot, c - 1);
        proof {
            assert(ok);
            Self::lemma_cnt_update_wf(*old(self), *self, idx@, (c - 1) as nat);
        }
    }

    /// Get a reference to the stored element by index, without touching any
    /// usage counter.
    ///
    /// As the index can be from another `IndexedHashSet`, this operation is
    /// fallible: a foreign or stale index yields `None` when its slot does
    /// not resolve here. Alternatively [`IndexedHashSet::index`] fetches
    /// directly, but demands a valid index of this set.
    pub fn get_ref_by_index<'a>(&'a self, idx: &RcIndex) -> (r: Option<&'a String>)
        ensures
            match r {
                Some(v) => self@.dom().contains(idx@) && v@ == self@[idx@].0,
                None => !self@.dom().contains(idx@),
            },
    {
        match store_get(&self.arena, idx.slot) {
            Some(e) => Some(&e.0),
            None => None,
        }
    }

    /// Get a reference to the stored element by index.
    ///
    /// Using an index that is stale or belongs to a different set is a
    /// caller-contract violation here, ruled out by this function's
    /// precondition; [`IndexedHashSet::get_ref_by_index`] is the fallible
    /// form for callers who want to test validity instead.
    pub fn index<'a>(&'a self, idx: &RcIndex) -> (r: &'a String)
        requires
            self@.dom().contains(idx@),
        ensures
            r@ == self@[idx@].0,
    {
        match store_get(&self.arena, idx.slot) {
            Some(e) => &e.0,
            None => vstd::pervasive::unreached(),
        }
    }
    /// Copy a bucket, leaving out the reference to slot `s`.
    fn bucket_remove(b: &Vec<InternalRef>, s: SlotId) -> (r: Vec<InternalRef>)
        requires
            forall|i: int, j: int| 0 <= i < j < b@.len() ==> b@[i].slot@ != b@[j].slot@,
        ensures
            forall|j: int|
                0 <= j < r@.len() ==> b@.contains(#[trigger] r@[j]) && r@[j].slot@ != s@,
            forall|x: InternalRef| b@.contains(x) && x.slot@ != s@ ==> r@.contains(x),
            forall|i: int, j: int| 0 <= i < j < r@.len() ==> r@[i].slot@ != r@[j].slot@,
    {
        let n = b.len();
        let mut r: Vec<InternalRef> = Vec::new();
        let mut i: usize = 0;
        while i < n
            invariant
                forall|i2: int, j2: int| 0 <= i2 < j2 < b@.len() ==> b@[i2].slot@ != b@[j2].slot@,
                n == b@.len(),
                i <= n,
                forall|j: int|
                    0 <= j < r@.len() ==> exists|j2: int|
                        0 <= j2 < i && #[trigger] r@[j] == b@[j2],
                forall|j: int| 0 <= j < r@.len() ==> (#[trigger] r@[j]).slot@ != s@,
                forall|j2: int|
                    0 <= j2 < i && (#[trigger] b@[j2]).slot@ != s@ ==> r@.contains(b@[j2]),
                forall|i2: int, j2: int| 0 <= i2 < j2 < r@.len() ==> r@[i2].slot@ != r@[j2].slot@,
            decreases n - i,
        {
            let x = b[i];
            let ghost r0 = r@;
            if !(x.slot == s) {
                proof {
                    assert forall|j: int| 0 <= j < r@.len() implies (#[trigger] r@[j]).slot@
                        != x.slot@ by {
                        let j2 = choose|j2: int| 0 <= j2 < i && r@[j] == b@[j2];
                        assert(b@[j2].slot@ != b@[i as int].slot@);
                    }
                }
                r.push(x);
            }
            proof {
                assert forall|j2: int|
                    0 <= j2 < i + 1 && (#[trigger] b@[j2]).slot@ != s@ implies r@.contains(
                    b@[j2],
                ) by {
                    if j2 < i {
                        assert(r0.contains(b@[j2]));
                        let jj = choose|jj: int| 0 <= jj < r0.len() && r0[jj] == b@[j2];
                        assert(r@[jj] == b@[j2]);
                    } else {
                        assert(r@[r@.len() - 1] == x);
                    }
                }
            }
            i = i + 1;
        }
        r
    }

    /// Drop all entries whose usage count is zero.
    ///
    /// Exactly the entries with a zero counter are removed, together with
    /// their index entries; every other entry is untouched. Returns how many
    /// entries were removed.
    pub fn drop_unused(&mut self) -> (r: usize)
        requires
            old(self).wf(),
        ensures
            final(self).wf(),
            final(self)@ == used_part(old(self)@),
            r + final(self)@.dom().len() == old(self)@.dom().len(),
    {
        let before = store_len(&self.arena);
        let slots = store_slots(&self.arena);
        let n = slots.len();
        let mut i: usize = 0;
        while i < n
            invariant
                self.wf(),
                n == slots@.len(),
                i <= n,
                forall|j: int| 0 <= j < n ==> old(self)@.dom().contains(#[trigger] slots@[j]@),
                forall|k: (int, int)|
                    old(self)@.dom().contains(k) ==> exists|j: int|
                        0 <= j < n && #[trigger] slots@[j]@ == k,
                forall|j1: int, j2: int| 0 <= j1 < j2 < n ==> slots@[j1]@ != slots@[j2]@,
                forall|k: (int, int)| #[trigger]
                    self@.dom().contains(k) ==> old(self)@.dom().contains(k) && self@[k] == old(
                        self,
                    )@[k],
                forall|j: int|
                    0 <= j < i ==> (self@.dom().contains(#[trigger] slots@[j]@) <==> old(
                        self,
                    )@[slots@[j]@].1 != 0),
                forall|j: int| i <= j < n ==> self@.dom().contains(#[trigger] slots@[j]@),
            decreases n - i,
        {
            let s = slots[i];
            let (c, h) = match store_get(&self.arena, s) {
                Some(e) => (e.1, hash_str(e.0.as_str())),
                None => vstd::pervasive::unreached(),
            };
            if c == 0 {
                let ghost m1 = self@;
                let ghost vk = self@[s@].0;
                let ghost omap = self.map@;
                let removed = store_remove(&mut self.arena, s);
                let b = match self.map.remove(&h) {
                    Some(bb) => bb,
                    None => vstd::pervasive::unreached(),
                };
                let nb = Self::bucket_remove(&b, s);
                self.map.insert(h, nb);
                proof {
                    let m2 = self@;
                    let nmap = self.map@;
                    assert(m2 == m1.remove(s@));
                    assert(m2.dom() =~= m1.dom().remove(s@));
                    assert(b@ == omap[h]@ && bucket_wf(m1, b@, h));
                    assert(nmap == omap.remove(h).insert(h, nb));
                    assert forall|hh: u64| #[trigger] nmap.contains_key(hh) implies bucket_wf(
                        m2,
                        nmap[hh]@,
                        hh,
                    ) by {
                        if hh == h {
                            assert forall|j: int| 0 <= j < nb@.len() implies {
                                &&& m2.dom().contains((#[trigger] nb@[j]).slot@)
                                &&& nb@[j].hash == h
                                &&& fnv(m2[nb@[j].slot@].0) == h
                            } by {
                                assert(b@.contains(nb@[j]) && nb@[j].slot@ != s@);
                                let j2 = choose|j2: int|
                                    0 <= j2 < b@.len() && b@[j2] == nb@[j];
                                assert(m1.dom().contains(b@[j2].slot@));
                                assert(m2[nb@[j].slot@] == m1[nb@[j].slot@]);
                            }
                        } else {
                            assert(omap.contains_key(hh));
                            assert(nmap[hh] == omap[hh]);
                            assert(bucket_wf(m1, omap[hh]@, hh));
                            let ob = omap[hh]@;
                            assert forall|j: int| 0 <= j < ob.len() implies {
                                &&& m2.dom().contains((#[trigger] ob[j]).slot@)
                                &&& ob[j].hash == hh
                                &&& fnv(m2[ob[j].slot@].0) == hh
                            } by {
                                assert(m1.dom().contains(ob[j].slot@));
                                assert(fnv(m1[ob[j].slot@].0) == hh);
                                assert(ob[j].slot@ != s@) by {
                                    if ob[j].slot@ == s@ {
                                        assert(fnv(m1[s@].0) == h);
                                    }
                                }
                                assert(m2[ob[j].slot@] == m1[ob[j].slot@]);
                            }
                        }
                    }
                    assert forall|k: (int, int)| #[trigger] m2.dom().contains(k) implies {
                        &&& nmap.contains_key(fnv(m2[k].0))
                        &&& bucket_has(nmap[fnv(m2[k].0)]@, k)
                    } by {
                        assert(m1.dom().contains(k) && k != s@);
                        let hk = fnv(m1[k].0);
                        assert(omap.contains_key(hk) && bucket_has(omap[hk]@, k));
                        let j = choose|j: int|
                            0 <= j < omap[hk]@.len() && (#[trigger] omap[hk]@[j]).slot@ == k;
                        if hk == h {
                            assert(b@.contains(b@[j]) && b@[j].slot@ != s@);
                            assert(nb@.contains(b@[j]));
                            let j2 = choose|j2: int|
                                0 <= j2 < nb@.len() && nb@[j2] == b@[j];
                            assert(bucket_has(nmap[h]@, k));
                        } else {
                            assert(nmap[hk] == omap[hk]);
                            assert(bucket_has(nmap[hk]@, k));
                        }
                    }
                }
            }
            i = i + 1;
        }
        let after = store_len(&self.arena);
        proof {
            assert(self@ =~= used_part(old(self)@)) by {
                assert forall|k: (int, int)| #[trigger]
                    used_part(old(self)@).dom().contains(k) implies self@.dom().contains(k) by {
                    assert(old(self)@.dom().contains(k) && old(self)@[k].1 != 0);
                    let j = choose|j: int| 0 <= j < n && #[trigger] slots@[j]@ == k;
                    assert(self@.dom().contains(slots@[j]@));
                }
                assert forall|k: (int, int)| #[trigger] self@.dom().contains(k) implies used_part(
                    old(self)@,
                ).dom().contains(k) && used_part(old(self)@)[k] == self@[k] by {
                    assert(old(self)@.dom().contains(k));
                    let j = choose|j: int| 0 <= j < n && #[trigger] slots@[j]@ == k;
                    assert(old(self)@[k].1 != 0);
                }
            }
            assert(self@.dom() <= old(self)@.dom());
            vstd::set_lib::lemma_len_subset(self@.dom(), old(self)@.dom());
        }
        before - after
    }

    /// All elements in the set whose usage count is not zero, each exactly
    /// once, in unspecified order. The result is built afresh on every call
    /// and is determined by the set's current contents alone.
    pub fn iter<'a>(&'a self) -> (r: Vec<&'a String>)
        requires
            self.wf(),
        ensures
            forall|j: int| 0 <= j < r@.len() ==> used_values(self@).contains((#[trigger] r@[j])@),
            forall|v: Seq<char>|
                used_values(self@).contains(v) ==> exists|j: int|
                    0 <= j < r@.len() && (#[trigger] r@[j])@ == v,
            forall|j1: int, j2: int| 0 <= j1 < j2 < r@.len() ==> r@[j1]@ != r@[j2]@,
    {
        let slots = store_slots(&self.arena);
        let n = slots.len();
        let mut r: Vec<&'a String> = Vec::new();
        let mut i: usize = 0;
        while i < n
            invariant
                self.wf(),
                n == slots@.len(),
                i <= n,
                forall|j: int| 0 <= j < n ==> self@.dom().contains(#[trigger] slots@[j]@),
                forall|k: (int, int)|
                    self@.dom().contains(k) ==> exists|j: int|
                        0 <= j < n && #[trigger] slots@[j]@ == k,
                forall|j1: int, j2: int| 0 <= j1 < j2 < n ==> slots@[j1]@ != slots@[j2]@,
                forall|jj: int|
                    0 <= jj < r@.len() ==> exists|j: int|
                        0 <= j < i && self@[#[trigger] slots@[j]@].1 != 0 && (#[trigger] r@[jj])@
                            == self@[slots@[j]@].0,
                forall|j: int|
                    0 <= j < i && self@[#[trigger] slots@[j]@].1 != 0 ==> exists|jj: int|
                        0 <= jj < r@.len() && (#[trigger] r@[jj])@ == self@[slots@[j]@].0,
                forall|j1: int, j2: int| 0 <= j1 < j2 < r@.len() ==> r@[j1]@ != r@[j2]@,
            decreases n - i,
        {
            let s = slots[i];
            let ghost r0 = r@;
            match store_get(&self.arena, s) {
                Some(e) => {
                    if e.1 != 0 {
                        proof {
                            assert forall|jj: int| 0 <= jj < r@.len() implies (#[trigger] r@[jj])@
                                != self@[s@].0 by {
                                let j = choose|j: int|
                                    0 <= j < i && self@[#[trigger] slots@[j]@].1 != 0 && r@[jj]@
                                        == self@[slots@[j]@].0;
                                assert(slots@[j]@ != s@);
                            }
                        }
                        r.push(&e.0);
                        proof {
                            assert(r@[r@.len() - 1]@ == self@[slots@[i as int]@].0);
                        }
                    }
                },
                None => {
                    proof {
                        assert(false);
                    }
                },
            }
            proof {
                assert forall|jj: int| 0 <= jj < r@.len() implies exists|j: int|
                    0 <= j < i + 1 && self@[#[trigger] slots@[j]@].1 != 0 && (#[trigger] r@[jj])@
                        == self@[slots@[j]@].0 by {
                    if jj < r0.len() {
                        let j = choose|j: int|
                            0 <= j < i && self@[#[trigger] slots@[j]@].1 != 0 && r0[jj]@
                                == self@[slots@[j]@].0;
                        assert(r@[jj] == r0[jj]);
                        assert(0 <= j < i + 1 && self@[slots@[j]@].1 != 0 && r@[jj]@
                            == self@[slots@[j]@].0);
                    } else {
                        assert(0 <= i < i + 1 && self@[slots@[i as int]@].1 != 0 && r@[jj]@
                            == self@[slots@[i as int]@].0);
                    }
                }
                assert forall|j: int|
                    0 <= j < i + 1 && self@[#[trigger] slots@[j]@].1 != 0 implies exists|jj: int|
                    0 <= jj < r@.len() && (#[trigger] r@[jj])@ == self@[slots@[j]@].0 by {
                    if j < i {
                        let jj = choose|jj: int|
                            0 <= jj < r0.len() && (#[trigger] r0[jj])@ == self@[slots@[j]@].0;
                        assert(r@[jj] == r0[jj]);
                        assert(0 <= jj < r@.len() && r@[jj]@ == self@[slots@[j]@].0);
                    } else {
                        assert(r@[r@.len() - 1]@ == self@[slots@[j]@].0);
                    }
                }
            }
            i = i + 1;
        }
        proof {
            assert forall|v: Seq<char>| used_values(self@).contains(v) implies exists|j: int|
                0 <= j < r@.len() && (#[trigger] r@[j])@ == v by {
                let k = choose|k: (int, int)| #[trigger]
                    self@.dom().contains(k) && self@[k].0 == v && self@[k].1 != 0;
                let j = choose|j: int| 0 <= j < n && #[trigger] slots@[j]@ == k;
                assert(self@[slots@[j]@].1 != 0);
                let jj = choose|jj: int|
                    0 <= jj < r@.len() && (#[trigger] r@[jj])@ == self@[slots@[j]@].0;
                assert(r@[jj]@ == v);
            }
            assert forall|j: int| 0 <= j < r@.len() implies used_values(self@).contains(
                (#[trigger] r@[j])@,
            ) by {
                let j2 = choose|j2: int|
                    0 <= j2 < i && self@[#[trigger] slots@[j2]@].1 != 0 && r@[j]@
                        == self@[slots@[j2]@].0;
                assert(self@.dom().contains(slots@[j2]@));
            }
        }
        r
    }
}

impl RcIndex {
    /// Get the usage count of the entry this index refers to, read from the
    /// set that issued the index. A foreign or stale index yields `None`.
    pub fn cnt(&self, set: &IndexedHashSet) -> (r: Option<usize>)
        ensures
            match r {
                Some(c) => set@.dom().contains(self@) && c as nat == set@[self@].1,
                None => !set@.dom().contains(self@),
            },
    {
        match set.get_cnt_by_slot(self.slot) {
            Some(c) => Some(c),
            None => None,
        }
    }
}

impl IndexedHashSet {
    /// The usage counter stored in slot `s`, if the slot is live.
    fn get_cnt_by_slot(&self, s: SlotId) -> (r: Option<usize>)
        ensures
            match r {
                Some(c) => self@.dom().contains(s@) && c as nat == self@[s@].1,
                None => !self@.dom().contains(s@),
            },
    {
        match store_get(&self.arena, s) {
            Some(e) => Some(e.1),
            None => None,
        }
    }
}

/// Uniqueness: a well-formed set holds at most one live entry per distinct
/// value, however it was built.
pub proof fn lemma_uniqueness(s: &IndexedHashSet)
    requires
        s.wf(),
    ensures
        unique_values(s@),
{
}

/// Counter events for one fixed entry: `true` stands for a handle
/// construction (by insert, lookup or duplication), which raises the
/// entry's usage counter by one, as the contracts of
/// [`IndexedHashSet::insert`], [`IndexedHashSet::get_index_by_hash`],
/// [`IndexedHashSet::get_or_insert`] and [`IndexedHashSet::clone_index`]
/// state; `false` stands for a destruction by
/// [`IndexedHashSet::drop_index`], which lowers it by one. The count starts
/// at zero before the entry's first handle exists.
pub open spec fn count_after(ops: Seq<bool>) -> int
    decreases ops.len(),
{
    if ops.len() == 0 {
        0
    } else {
        count_after(ops.drop_last()) + if ops.last() {
            1int
        } else {
            -1int
        }
    }
}

/// The number of handle constructions among the events.
pub open spec fn constructions(ops: Seq<bool>) -> int
    decreases ops.len(),
{
    if ops.len() == 0 {
        0
    } else {
        constructions(ops.drop_last()) + if ops.last() {
            1int
        } else {
            0int
        }
    }
}

/// The number of handle destructions among the events.
pub open spec fn destructions(ops: Seq<bool>) -> int
    decreases ops.len(),
{
    if ops.len() == 0 {
        0
    } else {
        destructions(ops.drop_last()) + if ops.last() {
            0int
        } else {
            1int
        }
    }
}

/// Counter correctness: after any run of events with k handle constructions
/// (insertions, lookups and duplications together) and j destructions for
/// one entry, the entry's usage count is exactly k - j.
pub proof fn lemma_counter_correctness(ops: Seq<bool>)
    ensures
        count_after(ops) == constructions(ops) - destructions(ops),
    decreases ops.len(),
{
    if ops.len() > 0 {
        lemma_counter_correctness(ops.drop_last());
    }
}

/// Iteration is a function of the contents alone: any two value sequences
/// that each enumerate the used entries of the same contents hold the same
/// values, so two iterations with no mutation in between yield the same
/// set.
pub proof fn lemma_iterate_deterministic(m: Contents, r1: Seq<Seq<char>>, r2: Seq<Seq<char>>)
    requires
        forall|j: int| 0 <= j < r1.len() ==> used_values(m).contains(#[trigger] r1[j]),
        forall|v: Seq<char>|
            used_values(m).contains(v) ==> exists|j: int| 0 <= j < r1.len() && #[trigger] r1[j]
                == v,
        forall|j: int| 0 <= j < r2.len() ==> used_values(m).contains(#[trigger] r2[j]),
        forall|v: Seq<char>|
            used_values(m).contains(v) ==> exists|j: int| 0 <= j < r2.len() && #[trigger] r2[j]
                == v,
    ensures
        forall|v: Seq<char>| r1.contains(v) <==> r2.contains(v),
{
    assert forall|v: Seq<char>| r1.contains(v) implies r2.contains(v) by {
        let j = choose|j: int| 0 <= j < r1.len() && r1[j] == v;
        assert(used_values(m).contains(r1[j]));
        let j2 = choose|j2: int| 0 <= j2 < r2.len() && #[trigger] r2[j2] == v;
    }
    assert forall|v: Seq<char>| r2.contains(v) implies r1.contains(v) by {
        let j = choose|j: int| 0 <= j < r2.len() && r2[j] == v;
        assert(used_values(m).contains(r2[j]));
        let j2 = choose|j2: int| 0 <= j2 < r1.len() && #[trigger] r1[j2] == v;
    }
}

impl Default for IndexedHashSet {
    /// An empty set, as [`IndexedHashSet::new`] builds it.
    fn default() -> (r: Self)
        ensures
            r.wf(),
            r@ == Map::<(int, int), (Seq<char>, nat)>::empty(),
    {
        IndexedHashSet::new()
    }
}

} // verus!
