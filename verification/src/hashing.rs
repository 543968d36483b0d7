//! Hashes of decision sequences, and the filter that lets each hash pass
//! once.

use crate::geometry::Decision;
use std::collections::hash_map::DefaultHasher;
use std::collections::HashSet;
use std::hash::Hash;
use std::hash::Hasher;
use vstd::prelude::*;
use vstd::std_specs::hash::DefaultHasherAdditionalSpecFns;

verus! {

broadcast use vstd::std_specs::hash::group_hash_axioms;

/// The writes by which the standard library feeds a decision sequence to a
/// hasher: one byte string for each call of `Hasher::write`, in their order.
/// They are fixed by the elements of the sequence for the platform and the
/// standard library that the program is built with, and not stated here.
pub uninterp spec fn written(order: Seq<Decision>) -> Seq<Seq<u8>>;

/// Calls `Hash::hash` of `Vec<(usize, char, isize)>` on `order` with `state`
/// as the hasher.
///
/// Trusted: the call does nothing to the hasher but write to it, and what
/// it writes depends on the elements of `order` alone, so that equal
/// sequences are hashed alike.
#[verifier::external_body]
fn feed(order: &Vec<Decision>, state: &mut DefaultHasher)
    ensures
        final(state)@ == old(state)@ + written(order@),
{
    order.hash(state);
}

/// The hash of a decision sequence: what a fresh standard hasher returns
/// once the sequence has been fed to it.
pub open spec fn digest(order: Seq<Decision>) -> u64 {
    DefaultHasher::spec_finish(written(order))
}

/// The hash of a decision sequence.
pub fn calculate_hash(order: &Vec<Decision>) -> (hash: u64)
    ensures
        hash == digest(order@),
{
    let mut hasher = DefaultHasher::new();
    feed(order, &mut hasher);
    assert(hasher@ =~= written(order@));
    hasher.finish()
}

/// The hashes that have passed since the filter was made.
pub struct DuplicateFilter {
    pub hashes: HashSet<u64>,
}

impl View for DuplicateFilter {
    type V = Set<u64>;

    open spec fn view(&self) -> Set<u64> {
        self.hashes@
    }
}

/// The outcome of offering `hash` to a filter that has seen `seen`: whether
/// it passes, and what the filter has seen afterwards.
pub open spec fn offered(seen: Set<u64>, hash: u64) -> (bool, Set<u64>) {
    (!seen.contains(hash), seen.insert(hash))
}

/// What a filter has seen after `hashes` were offered to it in turn.
pub open spec fn offered_all(seen: Set<u64>, hashes: Seq<u64>) -> Set<u64>
    decreases hashes.len(),
{
    if hashes.len() == 0 {
        seen
    } else {
        offered(offered_all(seen, hashes.drop_last()), hashes.last()).1
    }
}

impl DuplicateFilter {
    /// A filter that has seen nothing.
    pub fn new() -> (filter: DuplicateFilter)
        ensures
            filter@ == Set::<u64>::empty(),
    {
        DuplicateFilter { hashes: HashSet::new() }
    }

    /// Offers `hash`: it passes unless it was offered before, and from now on
    /// counts as seen.
    pub fn register(&mut self, hash: u64) -> (fresh: bool)
        ensures
            (fresh, final(self)@) == offered(old(self)@, hash),
    {
        self.hashes.insert(hash)
    }

    /// Offers the hash of `order`: it passes unless a sequence with the same
    /// hash was offered before.
    pub fn try_register(&mut self, order: &Vec<Decision>) -> (fresh: bool)
        ensures
            (fresh, final(self)@) == offered(old(self)@, digest(order@)),
    {
        let hash = calculate_hash(order);
        self.register(hash)
    }
}

/// A hash that was offered once does not pass again, whatever was offered in
/// between.
pub proof fn lemma_second_offer_rejected(seen: Set<u64>, hash: u64, between: Seq<u64>)
    ensures
        offered_all(offered(seen, hash).1, between).contains(hash),
        !offered(offered_all(offered(seen, hash).1, between), hash).0,
    decreases between.len(),
{
    if between.len() > 0 {
        lemma_second_offer_rejected(seen, hash, between.drop_last());
    }
}

/// A decision sequence that was offered once does not pass again, whatever
/// hashes were offered in between.
pub proof fn lemma_same_sequence_rejected(seen: Set<u64>, order: Seq<Decision>, between: Seq<u64>)
    ensures
        !offered(offered_all(offered(seen, digest(order)).1, between), digest(order)).0,
{
    lemma_second_offer_rejected(seen, digest(order), between);
}

} // verus!
