//! Verified core of the RustKit engine: selector matching and specificity,
//! the cascade's order and its provenance records, the style report built
//! from them, element identity keys, focus and form submission, URL
//! resolution for links and resources, view ids, and the textual side of
//! the CSS value parsers.
use vstd::prelude::*;

pub mod text;
pub mod dom;
pub mod identity;
pub mod style_trace;
pub mod tokens;
pub mod matching;
pub mod specificity;
pub mod values;
pub mod cascade;
pub mod report;
pub mod forms;
pub mod links;
pub mod shorthands;
pub mod units;
pub mod background;

verus! {

/// Unique identifier for an engine view.
#[derive(Debug, Clone, Copy, PartialEq, Eq, Hash)]
pub struct EngineViewId(u64);

impl View for EngineViewId {
    type V = u64;

    closed spec fn view(&self) -> u64 {
        self.0
    }
}

/// The source of view ids: ids are handed out in sequence, starting at 1.
/// The value after `u64::MAX` is 0.
#[derive(Debug)]
pub struct ViewIdCounter {
    next: u64,
}

impl View for ViewIdCounter {
    type V = u64;

    closed spec fn view(&self) -> u64 {
        self.next
    }
}

/// The counter value that follows `c`.
pub open spec fn next_id(c: u64) -> u64 {
    if c == u64::MAX {
        0
    } else {
        (c + 1) as u64
    }
}

/// The counter value after `k` allocations from `c`.
pub open spec fn after_allocations(c: u64, k: nat) -> u64
    decreases k,
{
    if k == 0 {
        c
    } else {
        next_id(after_allocations(c, (k - 1) as nat))
    }
}

impl ViewIdCounter {
    /// A fresh counter; its first id is 1.
    pub fn new() -> (r: Self)
        ensures
            r@ == 1,
    {
        ViewIdCounter { next: 1 }
    }
}

impl EngineViewId {
    /// Takes the next id from `counter`.
    pub fn new(counter: &mut ViewIdCounter) -> (id: Self)
        ensures
            id@ == old(counter)@,
            final(counter)@ == next_id(old(counter)@),
    {
        let id = EngineViewId(counter.next);
        counter.next = counter.next.wrapping_add(1);
        id
    }

    /// The raw numeric value of the id.
    pub fn raw(&self) -> (r: u64)
        ensures
            r == self@,
    {
        self.0
    }
}

proof fn lemma_after_allocations_value(c: u64, k: nat)
    ensures
        after_allocations(c, k) == (c + k) % 0x1_0000_0000_0000_0000,
    decreases k,
{
    if k > 0 {
        lemma_after_allocations_value(c, (k - 1) as nat);
    }
}

/// View ids are unique: the ids taken from one counter by a run of
/// allocations are pairwise distinct for as long as the run is shorter than
/// the 2^64 values a `u64` can hold.
pub proof fn lemma_view_ids_unique(c: u64, i: nat, j: nat)
    requires
        i < j < 0x1_0000_0000_0000_0000,
    ensures
        after_allocations(c, i) != after_allocations(c, j),
{
    lemma_after_allocations_value(c, i);
    lemma_after_allocations_value(c, j);
}

} // verus!
