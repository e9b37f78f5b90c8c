//! Counting the outcomes of a roll: in how many ways some dice come to a
//! given sum.

use vstd::prelude::*;

verus! {

/// `base` to the power `exp`.
pub open spec fn power(base: nat, exp: nat) -> nat
    decreases exp,
{
    if exp == 0 {
        1
    } else {
        base * power(base, (exp - 1) as nat)
    }
}

/// In how many ways `count` dice with faces `1..=sides` show faces that sum
/// to `sum`, the dice told apart.
pub open spec fn ways(count: nat, sides: nat, sum: int) -> nat
    decreases count, 0nat,
{
    if count == 0 {
        if sum == 0 {
            1
        } else {
            0
        }
    } else {
        ways_upto((count - 1) as nat, sides, sum, sides)
    }
}

/// In how many ways `rest` dice with faces `1..=sides` and one more die that
/// shows a face in `1..=top` sum to `sum`.
pub open spec fn ways_upto(rest: nat, sides: nat, sum: int, top: nat) -> nat
    decreases rest, top + 1,
{
    if top == 0 {
        0
    } else {
        ways_upto(rest, sides, sum, (top - 1) as nat) + ways(rest, sides, sum - top)
    }
}

/// In how many ways `count` dice come to a sum in `lo..hi`.
pub open spec fn ways_between(count: nat, sides: nat, lo: int, hi: int) -> nat
    decreases hi - lo,
{
    if lo >= hi {
        0
    } else {
        ways_between(count, sides, lo, hi - 1) + ways(count, sides, hi - 1)
    }
}

/// As [`ways_between`], with the face of one die held to `1..=top`.
pub open spec fn ways_upto_between(rest: nat, sides: nat, lo: int, hi: int, top: nat) -> nat
    decreases hi - lo,
{
    if lo >= hi {
        0
    } else {
        ways_upto_between(rest, sides, lo, hi - 1, top) + ways_upto(rest, sides, hi - 1, top)
    }
}

/// A power of a positive base does not shrink as the exponent grows.
pub proof fn lemma_power_grows(base: nat, low: nat, high: nat)
    requires
        base >= 1,
        low <= high,
    ensures
        1 <= power(base, low) <= power(base, high),
    decreases high,
{
    if low < high {
        lemma_power_grows(base, low, (high - 1) as nat);
        assert(power(base, (high - 1) as nat) <= base * power(base, (high - 1) as nat))
            by (nonlinear_arith)
            requires
                base >= 1,
        ;
    } else if high > 0 {
        lemma_power_grows(base, (low - 1) as nat, (high - 1) as nat);
        assert(1 <= base * power(base, (high - 1) as nat)) by (nonlinear_arith)
            requires
                base >= 1,
                power(base, (high - 1) as nat) >= 1,
        ;
    }
}

/// No sum lies below the number of dice or above that number times the
/// sides.
pub proof fn lemma_ways_outside(count: nat, sides: nat, sum: int)
    requires
        sum < count || sum > count * sides,
    ensures
        ways(count, sides, sum) == 0,
    decreases count, 0nat,
{
    if count > 0 {
        assert((count - 1) * sides + sides == count * sides) by (nonlinear_arith);
        lemma_ways_upto_outside((count - 1) as nat, sides, sum, sides);
    } else {
        assert(count * sides == 0) by (nonlinear_arith)
            requires
                count == 0,
        ;
    }
}

/// As [`lemma_ways_outside`], with the face of one die held to `1..=top`.
pub proof fn lemma_ways_upto_outside(rest: nat, sides: nat, sum: int, top: nat)
    requires
        sum < rest + 1 || sum > rest * sides + top,
    ensures
        ways_upto(rest, sides, sum, top) == 0,
    decreases rest, top + 1,
{
    if top > 0 {
        lemma_ways_upto_outside(rest, sides, sum, (top - 1) as nat);
        lemma_ways_outside(rest, sides, sum - top);
    }
}

/// Every sum from the number of dice to that number times the sides comes
/// up in at least one way.
pub proof fn lemma_ways_inside(count: nat, sides: nat, sum: int)
    requires
        sides >= 1,
        count <= sum <= count * sides,
    ensures
        ways(count, sides, sum) > 0,
    decreases count,
{
    if count > 0 {
        let rest = (count - 1) as nat;
        assert(rest * sides + sides == count * sides) by (nonlinear_arith)
            requires
                rest + 1 == count,
        ;
        assert(rest * sides >= rest) by (nonlinear_arith)
            requires
                sides >= 1,
        ;
        let face: int = if sum - rest * sides > 1 {
            sum - rest * sides
        } else {
            1
        };
        lemma_ways_inside(rest, sides, sum - face);
        lemma_ways_upto_holds(rest, sides, sum, sides, face as nat);
    } else {
        assert(count * sides == 0) by (nonlinear_arith)
            requires
                count == 0,
        ;
    }
}

/// The ways with one die held to `1..=top` include those in which it shows
/// `face`.
pub proof fn lemma_ways_upto_holds(rest: nat, sides: nat, sum: int, top: nat, face: nat)
    requires
        1 <= face <= top,
    ensures
        ways_upto(rest, sides, sum, top) >= ways(rest, sides, sum - face),
    decreases top,
{
    if face < top {
        lemma_ways_upto_holds(rest, sides, sum, (top - 1) as nat, face);
    }
}

/// Holding one die to fewer faces leaves no more ways.
pub proof fn lemma_ways_upto_grows(rest: nat, sides: nat, sum: int, low: nat, high: nat)
    requires
        low <= high,
    ensures
        ways_upto(rest, sides, sum, low) <= ways_upto(rest, sides, sum, high),
    decreases high,
{
    if low < high {
        lemma_ways_upto_grows(rest, sides, sum, low, (high - 1) as nat);
    }
}

/// No sum comes up in more ways than there are outcomes.
pub proof fn lemma_ways_bound(count: nat, sides: nat, sum: int)
    ensures
        ways(count, sides, sum) <= power(sides, count),
    decreases count, 0nat,
{
    if count > 0 {
        lemma_ways_upto_bound((count - 1) as nat, sides, sum, sides);
    }
}

/// As [`lemma_ways_bound`], with the face of one die held to `1..=top`.
pub proof fn lemma_ways_upto_bound(rest: nat, sides: nat, sum: int, top: nat)
    ensures
        ways_upto(rest, sides, sum, top) <= top * power(sides, rest),
    decreases rest, top + 1,
{
    if top > 0 {
        lemma_ways_upto_bound(rest, sides, sum, (top - 1) as nat);
        lemma_ways_bound(rest, sides, sum - top);
        assert((top - 1) * power(sides, rest) + power(sides, rest) == top * power(sides, rest))
            by (nonlinear_arith);
    } else {
        assert(top * power(sides, rest) == 0) by (nonlinear_arith)
            requires
                top == 0,
        ;
    }
}

/// No dice come to the sum 0 in one way, and to no other sum.
proof fn lemma_no_dice_between(sides: nat, lo: int, hi: int)
    ensures
        ways_between(0, sides, lo, hi) == if lo <= 0 < hi {
            1nat
        } else {
            0nat
        },
    decreases hi - lo,
{
    if lo < hi {
        lemma_no_dice_between(sides, lo, hi - 1);
    }
}

/// With one more die the ways are those with its face held to all its
/// sides.
proof fn lemma_between_unfolds(rest: nat, sides: nat, lo: int, hi: int)
    ensures
        ways_between(rest + 1, sides, lo, hi) == ways_upto_between(rest, sides, lo, hi, sides),
    decreases hi - lo,
{
    if lo < hi {
        lemma_between_unfolds(rest, sides, lo, hi - 1);
    }
}

/// Letting the held die also show `top` adds the ways of the other dice to
/// come to the sums that are `top` lower.
proof fn lemma_upto_between_step(rest: nat, sides: nat, lo: int, hi: int, top: nat)
    requires
        top >= 1,
    ensures
        ways_upto_between(rest, sides, lo, hi, top) == ways_upto_between(
            rest,
            sides,
            lo,
            hi,
            (top - 1) as nat,
        ) + ways_between(rest, sides, lo - top, hi - top),
    decreases hi - lo,
{
    if lo < hi {
        lemma_upto_between_step(rest, sides, lo, hi - 1, top);
    }
}

/// A die held to no face leaves no way.
proof fn lemma_upto_between_none(rest: nat, sides: nat, lo: int, hi: int)
    ensures
        ways_upto_between(rest, sides, lo, hi, 0) == 0,
    decreases hi - lo,
{
    if lo < hi {
        lemma_upto_between_none(rest, sides, lo, hi - 1);
    }
}

/// The ways to come to the sums of a range that holds every possible sum
/// are all the outcomes: `sides` to the power `count`.
pub proof fn lemma_ways_total(count: nat, sides: nat, lo: int, hi: int)
    requires
        lo <= count,
        hi > count * sides,
    ensures
        ways_between(count, sides, lo, hi) == power(sides, count),
    decreases count, 0nat,
{
    if count == 0 {
        assert(count * sides == 0) by (nonlinear_arith)
            requires
                count == 0,
        ;
        lemma_no_dice_between(sides, lo, hi);
    } else {
        let rest = (count - 1) as nat;
        assert(rest * sides + sides == count * sides) by (nonlinear_arith)
            requires
                rest + 1 == count,
        ;
        lemma_between_unfolds(rest, sides, lo, hi);
        lemma_upto_total(rest, sides, lo, hi, sides);
    }
}

/// As [`lemma_ways_total`], with the face of one die held to `1..=top`.
proof fn lemma_upto_total(rest: nat, sides: nat, lo: int, hi: int, top: nat)
    requires
        lo <= rest + 1,
        hi > rest * sides + top,
    ensures
        ways_upto_between(rest, sides, lo, hi, top) == top * power(sides, rest),
    decreases rest, top + 1,
{
    if top == 0 {
        lemma_upto_between_none(rest, sides, lo, hi);
        assert(top * power(sides, rest) == 0) by (nonlinear_arith)
            requires
                top == 0,
        ;
    } else {
        lemma_upto_between_step(rest, sides, lo, hi, top);
        lemma_upto_total(rest, sides, lo, hi, (top - 1) as nat);
        lemma_ways_total(rest, sides, lo - top, hi - top);
        assert((top - 1) * power(sides, rest) + power(sides, rest) == top * power(sides, rest))
            by (nonlinear_arith);
    }
}

/// In how many ways `rest` dice come to one of the `steps` sums that follow
/// `base`, each sum counted for itself.
pub open spec fn ways_after(rest: nat, sides: nat, base: int, steps: nat) -> nat
    decreases steps,
{
    if steps == 0 {
        0
    } else {
        ways_after(rest, sides, base, (steps - 1) as nat) + ways(rest, sides, base + steps)
    }
}

/// The sums that follow `base` are the next one and those that follow it.
proof fn lemma_ways_after_first(rest: nat, sides: nat, base: int, steps: nat)
    requires
        steps >= 1,
    ensures
        ways_after(rest, sides, base, steps) == ways(rest, sides, base + 1) + ways_after(
            rest,
            sides,
            base + 1,
            (steps - 1) as nat,
        ),
    decreases steps,
{
    let fewer = (steps - 1) as nat;
    if steps > 1 {
        lemma_ways_after_first(rest, sides, base, fewer);
        assert(ways_after(rest, sides, base + 1, fewer) == ways_after(
            rest,
            sides,
            base + 1,
            (fewer - 1) as nat,
        ) + ways(rest, sides, base + 1 + fewer));
    } else {
        assert(ways_after(rest, sides, base, fewer) == 0);
        assert(ways_after(rest, sides, base + 1, fewer) == 0);
    }
}

/// The sums that are left for the other dice when one die shows a face in
/// `1..=top` are the `top` sums below `sum`.
proof fn lemma_upto_is_after(rest: nat, sides: nat, sum: int, top: nat)
    ensures
        ways_upto(rest, sides, sum, top) == ways_after(rest, sides, sum - top - 1, top),
    decreases top,
{
    if top > 0 {
        lemma_upto_is_after(rest, sides, sum, (top - 1) as nat);
        lemma_ways_after_first(rest, sides, sum - top - 1, top);
    }
}

/// A sum comes up in as many ways as its mirror image: turn every die over,
/// so that the face `f` becomes `sides + 1 - f`.
pub proof fn lemma_ways_mirror(count: nat, sides: nat, sum: int)
    ensures
        ways(count, sides, sum) == ways(count, sides, count * (sides + 1) - sum),
    decreases count, 0nat,
{
    if count > 0 {
        let rest = (count - 1) as nat;
        let mirror = count * (sides + 1) - sum;
        assert(count * (sides + 1) - sides - 1 == rest * (sides + 1)) by (nonlinear_arith)
            requires
                rest + 1 == count,
        ;
        lemma_mirror_sum(rest, sides, sum, sides);
        lemma_upto_is_after(rest, sides, mirror, sides);
    } else {
        assert(count * (sides + 1) == 0) by (nonlinear_arith)
            requires
                count == 0,
        ;
    }
}

/// As [`lemma_ways_mirror`], with the face of one die held to `1..=top`.
proof fn lemma_mirror_sum(rest: nat, sides: nat, sum: int, top: nat)
    ensures
        ways_upto(rest, sides, sum, top) == ways_after(
            rest,
            sides,
            rest * (sides + 1) - sum,
            top,
        ),
    decreases rest, top + 1,
{
    if top > 0 {
        lemma_mirror_sum(rest, sides, sum, (top - 1) as nat);
        lemma_ways_mirror(rest, sides, sum - top);
    }
}

} // verus!
