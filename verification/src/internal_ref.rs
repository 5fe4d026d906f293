//! Non-owning internal references for the value index.
//!
//! The index must find the slot of a stored value without keeping a second
//! copy of it. An [`InternalRef`] stands for one stored value: it records
//! the value's hash and the slot that holds the value, never the value
//! itself. A lookup recomputes the query's hash and compares the query, for
//! each candidate reference, against the value in the referenced slot, so
//! two distinct values whose hashes collide are still told apart.
//!
//! The hash is a fixed function of the value's characters ([`fnv`],
//! the 64-bit FNV-1a scheme), computed here in verified code.

use vstd::prelude::*;
use vstd::string::StrSliceExecFns;

use crate::slot_store::SlotId;

verus! {

/// The FNV-1a offset basis.
pub const FNV_OFFSET: u64 = 0xcbf29ce484222325;

/// The FNV-1a prime.
pub const FNV_PRIME: u64 = 0x100000001b3;

/// One FNV-1a round: fold one character into the running hash.
pub open spec fn fnv_step(h: u64, c: char) -> u64 {
    (h ^ (c as u64)).wrapping_mul(FNV_PRIME)
}

/// The hash of a value: 64-bit FNV-1a over its characters.
pub open spec fn fnv(s: Seq<char>) -> u64
    decreases s.len(),
{
    if s.len() == 0 {
        FNV_OFFSET
    } else {
        fnv_step(fnv(s.drop_last()), s.last())
    }
}

/// Compute [`fnv`] of a string.
pub(crate) fn hash_str(s: &str) -> (h: u64)
    ensures
        h == fnv(s@),
{
    let n = s.unicode_len();
    let mut h: u64 = FNV_OFFSET;
    let mut i: usize = 0;
    while i < n
        invariant
            n == s@.len(),
            i <= n,
            h == fnv(s@.subrange(0, i as int)),
        decreases n - i,
    {
        let c = s.get_char(i);
        h = (h ^ (c as u64)).wrapping_mul(FNV_PRIME);
        proof {
            assert(s@.subrange(0, i + 1).drop_last() =~= s@.subrange(0, i as int));
            assert(s@.subrange(0, i + 1).last() == s@[i as int]);
        }
        i = i + 1;
    }
    proof {
        assert(s@.subrange(0, n as int) =~= s@);
    }
    h
}

/// Character-wise string equality: true exactly when the two views agree.
pub(crate) fn str_eq(a: &str, b: &str) -> (r: bool)
    ensures
        r == (a@ == b@),
{
    let na = a.unicode_len();
    let nb = b.unicode_len();
    if na != nb {
        return false;
    }
    let mut i: usize = 0;
    while i < na
        invariant
            na == a@.len(),
            na == b@.len(),
            i <= na,
            forall|j: int| 0 <= j < i ==> a@[j] == b@[j],
        decreases na - i,
    {
        if a.get_char(i) != b.get_char(i) {
            return false;
        }
        i = i + 1;
    }
    proof {
        assert(a@ =~= b@);
    }
    true
}

/// A non-owning reference to one value stored inside the container: the
/// value's hash and the slot holding it. Used only by the container's own
/// lookup index; resolving one goes back through the slot store, so a
/// reference never outlives its referent by construction.
#[derive(Clone, Copy, PartialEq, Eq, Structural, Debug)]
pub struct InternalRef {
    /// [`fnv`] of the referenced value.
    pub hash: u64,
    /// The slot whose entry holds the referenced value.
    pub slot: SlotId,
}

impl InternalRef {
    /// Build an `InternalRef` from a reference to a stored value and the
    /// slot that holds it.
    pub fn from_ref(elem: &str, slot: SlotId) -> (r: InternalRef)
        ensures
            r.hash == fnv(elem@),
            r.slot == slot,
    {
        InternalRef { hash: hash_str(elem), slot }
    }
}

} // verus!
