//! Combat statistics of a part, and of a whole tree of parts.

use vstd::prelude::*;

verus! {

/// Largest hit-point value a single part may carry.
pub const MAX_PART_HP: u64 = 0xFFFF_FFFF;

/// Largest magnitude of speed, acceleration or force a single part may carry.
pub const MAX_PART_STAT: i64 = 0x7FFF_FFFF;

/// Statistics of one part, or the sum over a tree.
///
/// An absent optional field counts as zero when statistics are combined; the
/// result of a combination has all three fields present.
#[derive(Clone, Copy, Debug, PartialEq, Eq)]
pub struct PartStats {
    pub hp: u64,
    pub speed: Option<i64>,
    pub acceleration: Option<i64>,
    pub force: Option<i64>,
}

/// Exact component-wise totals, the mathematical value of a `PartStats`.
pub ghost struct StatTotals {
    pub hp: int,
    pub speed: int,
    pub acceleration: int,
    pub force: int,
}

/// The amount that an optional field contributes to a sum.
pub open spec fn amount(field: Option<i64>) -> int {
    match field {
        Some(v) => v as int,
        None => 0,
    }
}

impl StatTotals {
    /// The totals of nothing.
    pub open spec fn zero() -> StatTotals {
        StatTotals { hp: 0, speed: 0, acceleration: 0, force: 0 }
    }

    /// The component-wise sum.
    pub open spec fn plus(self, rhs: StatTotals) -> StatTotals {
        StatTotals {
            hp: self.hp + rhs.hp,
            speed: self.speed + rhs.speed,
            acceleration: self.acceleration + rhs.acceleration,
            force: self.force + rhs.force,
        }
    }

    /// Whether every component can be held in a `PartStats`.
    pub open spec fn fits(self) -> bool {
        &&& 0 <= self.hp <= u64::MAX
        &&& i64::MIN <= self.speed <= i64::MAX
        &&& i64::MIN <= self.acceleration <= i64::MAX
        &&& i64::MIN <= self.force <= i64::MAX
    }

    /// Whether every component is at most `count` times what one part may carry.
    pub open spec fn within(self, count: int) -> bool {
        &&& 0 <= self.hp <= count * MAX_PART_HP
        &&& -count * MAX_PART_STAT <= self.speed <= count * MAX_PART_STAT
        &&& -count * MAX_PART_STAT <= self.acceleration <= count * MAX_PART_STAT
        &&& -count * MAX_PART_STAT <= self.force <= count * MAX_PART_STAT
    }

    /// The statistics that hold these totals, with every optional field present.
    pub open spec fn as_stats(self) -> PartStats {
        PartStats {
            hp: self.hp as u64,
            speed: Some(self.speed as i64),
            acceleration: Some(self.acceleration as i64),
            force: Some(self.force as i64),
        }
    }
}

impl PartStats {
    /// The totals that these statistics stand for.
    pub open spec fn totals(self) -> StatTotals {
        StatTotals {
            hp: self.hp as int,
            speed: amount(self.speed),
            acceleration: amount(self.acceleration),
            force: amount(self.force),
        }
    }

    /// Whether these statistics are in the range allowed for a single part.
    pub open spec fn part_sized(self) -> bool {
        self.totals().within(1)
    }

    /// Executable test of `part_sized`.
    pub fn is_part_sized(&self) -> (ok: bool)
        ensures
            ok == self.part_sized(),
    {
        self.hp <= MAX_PART_HP && field_in_range(self.speed) && field_in_range(self.acceleration)
            && field_in_range(self.force)
    }

    /// Component-wise sum. Absent fields count as zero and the result has every
    /// field present.
    pub fn add(self, rhs: PartStats) -> (sum: PartStats)
        requires
            self.totals().plus(rhs.totals()).fits(),
        ensures
            sum == self.totals().plus(rhs.totals()).as_stats(),
            sum.totals() == self.totals().plus(rhs.totals()),
    {
        PartStats {
            hp: self.hp + rhs.hp,
            speed: Some(field_or_zero(self.speed) + field_or_zero(rhs.speed)),
            acceleration: Some(field_or_zero(self.acceleration) + field_or_zero(rhs.acceleration)),
            force: Some(field_or_zero(self.force) + field_or_zero(rhs.force)),
        }
    }

    /// Adds `rhs` to `self` in place.
    pub fn add_assign(&mut self, rhs: PartStats)
        requires
            old(self).totals().plus(rhs.totals()).fits(),
        ensures
            *final(self) == old(self).totals().plus(rhs.totals()).as_stats(),
    {
        *self = self.add(rhs);
    }
}

impl Default for PartStats {
    /// No hit points and no optional field.
    fn default() -> (stats: PartStats)
        ensures
            stats == (PartStats { hp: 0, speed: None, acceleration: None, force: None }),
    {
        PartStats { hp: 0, speed: None, acceleration: None, force: None }
    }
}

/// The amount that an optional field contributes to a sum.
fn field_or_zero(field: Option<i64>) -> (v: i64)
    ensures
        v == amount(field),
{
    match field {
        Some(v) => v,
        None => 0,
    }
}

/// Whether an optional field is in the range that a single part may carry.
fn field_in_range(field: Option<i64>) -> (ok: bool)
    ensures
        ok == (-MAX_PART_STAT <= amount(field) <= MAX_PART_STAT),
{
    match field {
        Some(v) => -MAX_PART_STAT <= v && v <= MAX_PART_STAT,
        None => true,
    }
}

/// Combination is commutative: the operands may be swapped.
pub proof fn lemma_plus_commutative(a: StatTotals, b: StatTotals)
    ensures
        a.plus(b) == b.plus(a),
{
}

/// Combination is associative: the grouping of operands does not matter.
pub proof fn lemma_plus_associative(a: StatTotals, b: StatTotals, c: StatTotals)
    ensures
        a.plus(b).plus(c) == a.plus(b.plus(c)),
{
}

} // verus!
