//! Weights of the tree operations: a measured base cost, a cost per unit of
//! the operation's size, and the cost of the storage reads and writes.
//! All sums and products saturate at `u64::MAX`.

use vstd::prelude::*;

verus! {

/// A cost, in units of weight.
pub type Weight = u64;

/// `a + b`, or `u64::MAX` if that is less.
pub open spec fn sat_add(a: int, b: int) -> int {
    if a + b > u64::MAX {
        u64::MAX as int
    } else {
        a + b
    }
}

/// `a * b`, or `u64::MAX` if that is less.
pub open spec fn sat_mul(a: int, b: int) -> int {
    if a * b > u64::MAX {
        u64::MAX as int
    } else {
        a * b
    }
}

/// The product of two weights, saturating.
pub fn saturating_mul(a: Weight, b: Weight) -> (r: Weight)
    ensures
        r == sat_mul(a as int, b as int),
{
    match a.checked_mul(b) {
        Some(product) => product,
        None => u64::MAX,
    }
}

/// The cost of one storage read and of one storage write.
#[derive(Clone, Copy, Debug, PartialEq, Eq, Structural)]
pub struct RuntimeDbWeight {
    pub read: Weight,
    pub write: Weight,
}

impl RuntimeDbWeight {
    /// The cost of `r` reads.
    pub open spec fn spec_reads(&self, r: int) -> int {
        sat_mul(self.read as int, r)
    }

    /// The cost of `w` writes.
    pub open spec fn spec_writes(&self, w: int) -> int {
        sat_mul(self.write as int, w)
    }

    /// The cost of `r` reads.
    pub fn reads(&self, r: Weight) -> (cost: Weight)
        ensures
            cost == self.spec_reads(r as int),
    {
        saturating_mul(self.read, r)
    }

    /// The cost of `w` writes.
    pub fn writes(&self, w: Weight) -> (cost: Weight)
        ensures
            cost == self.spec_writes(w as int),
    {
        saturating_mul(self.write, w)
    }
}

/// The weight of an operation with base cost `base`, cost `per_unit` for each
/// of `units` units, and `reads` storage reads and `writes` storage writes.
pub open spec fn weight_of(
    db: RuntimeDbWeight,
    base: int,
    per_unit: int,
    units: int,
    reads: int,
    writes: int,
) -> int {
    sat_add(
        sat_add(sat_add(base, sat_mul(per_unit, units)), db.spec_reads(reads)),
        db.spec_writes(writes),
    )
}

/// Weight functions needed for the tree operations.
pub trait WeightInfo {
    fn create_group(&self, n: u32) -> Weight;

    fn set_manager_required(&self) -> Weight;

    fn set_manager(&self) -> Weight;

    fn set_stopped(&self) -> Weight;

    fn add_members(&self, n: u32) -> Weight;

    fn verify_path(&self, n: u32) -> Weight;

    fn on_finalize(&self) -> Weight;
}

/// Weight functions for the tree operations, over the storage costs of a
/// runtime.
#[derive(Clone, Copy, Debug, PartialEq, Eq, Structural)]
pub struct Weights {
    pub db_weight: RuntimeDbWeight,
}

impl Weights {
    /// The weights over the given storage costs.
    pub fn new(db_weight: RuntimeDbWeight) -> (r: Self)
        ensures
            r.db_weight == db_weight,
    {
        Weights { db_weight }
    }

    /// `weight_of`, computed.
    fn total(&self, base: Weight, per_unit: Weight, units: u32, reads: Weight, writes: Weight) -> (r:
        Weight)
        ensures
            r == weight_of(
                self.db_weight,
                base as int,
                per_unit as int,
                units as int,
                reads as int,
                writes as int,
            ),
    {
        base.saturating_add(saturating_mul(per_unit, units as Weight)).saturating_add(
            self.db_weight.reads(reads),
        ).saturating_add(self.db_weight.writes(writes))
    }
}

impl WeightInfo for Weights {
    /// Creating a tree of depth `d`.
    fn create_group(&self, d: u32) -> (r: Weight)
        ensures
            r == weight_of(self.db_weight, 7_618_000, 151_000, d as int, 1, 3),
    {
        self.total(7_618_000, 151_000, d, 1, 3)
    }

    fn set_manager_required(&self) -> (r: Weight)
        ensures
            r == weight_of(self.db_weight, 8_000_000, 0, 0, 1, 1),
    {
        self.total(8_000_000, 0, 0, 1, 1)
    }

    fn set_manager(&self) -> (r: Weight)
        ensures
            r == weight_of(self.db_weight, 8_000_000, 0, 0, 1, 1),
    {
        self.total(8_000_000, 0, 0, 1, 1)
    }

    fn set_stopped(&self) -> (r: Weight)
        ensures
            r == weight_of(self.db_weight, 7_000_000, 0, 0, 1, 1),
    {
        self.total(7_000_000, 0, 0, 1, 1)
    }

    /// Appending `n` leaves.
    fn add_members(&self, n: u32) -> (r: Weight)
        ensures
            r == weight_of(self.db_weight, 305_389_489_000, 63_659_275_000, n as int, 3, 2),
    {
        self.total(305_389_489_000, 63_659_275_000, n, 3, 2)
    }

    /// Checking a path in a tree of depth `d`.
    fn verify_path(&self, d: u32) -> (r: Weight)
        ensures
            r == weight_of(self.db_weight, 310_970_311_000, 3_666_683_000, d as int, 1, 0),
    {
        self.total(310_970_311_000, 3_666_683_000, d, 1, 0)
    }

    fn on_finalize(&self) -> (r: Weight)
        ensures
            r == weight_of(self.db_weight, 14_000_000, 0, 0, 2, 1),
    {
        self.total(14_000_000, 0, 0, 2, 1)
    }
}

} // verus!
