//! The exact distribution of a roll: every total that can come up, and in
//! how many of the equally likely outcomes it does.

use vstd::prelude::*;
use crate::dice::Dice;
use crate::outcomes::{
    lemma_power_grows, lemma_ways_bound, lemma_ways_inside, lemma_ways_mirror,
    lemma_ways_outside, lemma_ways_total, lemma_ways_upto_grows, power, ways, ways_between,
    ways_upto,
};

verus! {

/// The totals of a roll in ascending order, each with the number of outcomes
/// that give it, and the number of all outcomes. A total comes up with the
/// probability `frequencies[i] / outcomes`.
#[derive(Debug, PartialEq, Eq)]
pub struct Distribution {
    pub totals: Vec<i64>,
    pub frequencies: Vec<u64>,
    pub outcomes: u64,
}

/// The sum of the numbers in `frequencies`.
pub open spec fn sum_of(frequencies: Seq<u64>) -> nat
    decreases frequencies.len(),
{
    if frequencies.len() == 0 {
        0
    } else {
        sum_of(frequencies.drop_last()) + frequencies.last() as nat
    }
}

/// Whether `row` holds, for `count` dice, the ways to come to each sum from
/// `count` up to `count * sides`.
pub open spec fn is_row(row: Seq<u64>, count: nat, sides: nat) -> bool {
    &&& row.len() == count * (sides - 1) + 1
    &&& forall|j: int| 0 <= j < row.len() ==> #[trigger] row[j] == ways(count, sides, count + j)
}

impl Dice {
    /// The least total of a roll: every die shows 1.
    pub open spec fn lowest(&self) -> int {
        self.count + self.modifier
    }

    /// The greatest total of a roll: every die shows its last face.
    pub open spec fn highest(&self) -> int {
        self.count * self.sides + self.modifier
    }

    /// The number of outcomes of a roll, the dice told apart.
    pub open spec fn outcomes(&self) -> nat {
        power(self.sides as nat, self.count as nat)
    }

    /// The number of outcomes in which the roll comes to `total`.
    pub open spec fn frequency(&self, total: int) -> nat {
        ways(self.count as nat, self.sides as nat, total - self.modifier)
    }

    /// The totals that come up in some outcome are those from the least to
    /// the greatest, and no others.
    pub proof fn lemma_possible_totals(&self, total: int)
        requires
            self.wf(),
        ensures
            self.frequency(total) > 0 <==> self.lowest() <= total <= self.highest(),
    {
        let sum = total - self.modifier;
        if self.count <= sum <= self.count * self.sides {
            lemma_ways_inside(self.count as nat, self.sides as nat, sum);
        } else {
            lemma_ways_outside(self.count as nat, self.sides as nat, sum);
        }
    }

    /// The distribution is symmetric: a total as far above the least as
    /// another is below the greatest comes up as often.
    pub proof fn lemma_mirrored_totals(&self, distance: int)
        ensures
            self.frequency(self.lowest() + distance) == self.frequency(
                self.highest() - distance,
            ),
    {
        let count = self.count as nat;
        let sides = self.sides as nat;
        lemma_ways_mirror(count, sides, count + distance);
        assert(count * (sides + 1) - (count + distance) == count * sides - distance)
            by (nonlinear_arith);
    }

    /// The number of outcomes of a roll, where it fits in 64 bits.
    pub fn outcome_count(&self) -> (n: Option<u64>)
        requires
            self.wf(),
        ensures
            n == if self.outcomes() <= u64::MAX {
                Some(self.outcomes() as u64)
            } else {
                None
            },
    {
        let sides: u64 = self.sides as u64;
        let mut n: u64 = 1;
        let mut i: u8 = 0;
        while i < self.count
            invariant
                i <= self.count,
                sides == self.sides,
                sides >= 1,
                n == power(sides as nat, i as nat),
            decreases self.count - i,
        {
            assert(power(sides as nat, (i + 1) as nat) == sides * n) by {
                assert(power(sides as nat, (i + 1) as nat) == sides as nat * power(
                    sides as nat,
                    i as nat,
                ));
            }
            if n > u64::MAX / sides {
                proof {
                    assert(sides * n > u64::MAX) by (nonlinear_arith)
                        requires
                            n > u64::MAX / sides,
                            sides >= 1,
                    ;
                    lemma_power_grows(sides as nat, (i + 1) as nat, self.count as nat);
                }
                return None;
            }
            assert(n * sides <= u64::MAX && n * sides == sides * n) by (nonlinear_arith)
                requires
                    n <= u64::MAX / sides,
                    sides >= 1,
            ;
            n = n * sides;
            i = i + 1;
        }
        Some(n)
    }

    /// The exact distribution of a roll, where the number of its outcomes
    /// fits in 64 bits.
    pub fn roll_distribution(&self) -> (r: Option<Distribution>)
        requires
            self.wf(),
        ensures
            match r {
                Some(distribution) => self.outcomes() <= u64::MAX && distribution.describes(*self),
                None => self.outcomes() > u64::MAX,
            },
    {
        let outcomes: u64 = match self.outcome_count() {
            Some(n) => n,
            None => {
                return None;
            },
        };
        let sides: usize = self.sides as usize;
        let mut row: Vec<u64> = Vec::new();
        row.push(1);
        let mut rolled: u8 = 0;
        assert(is_row(row@, 0, sides as nat)) by {
            assert(0 * (sides - 1) + 1 == 1) by (nonlinear_arith);
        }
        while rolled < self.count
            invariant
                rolled <= self.count,
                sides == self.sides,
                sides >= 1,
                is_row(row@, rolled as nat, sides as nat),
                power(sides as nat, self.count as nat) <= u64::MAX,
            decreases self.count - rolled,
        {
            proof {
                lemma_power_grows(sides as nat, (rolled + 1) as nat, self.count as nat);
            }
            row = add_die(&row, rolled, self.sides);
            rolled = rolled + 1;
        }
        let n: usize = row.len();
        let lowest: i64 = self.count as i64 + self.modifier as i64;
        let mut totals: Vec<i64> = Vec::new();
        let mut j: usize = 0;
        assert(n == self.count * (self.sides - 1) + 1);
        assert(n <= 255 * 254 + 1) by (nonlinear_arith)
            requires
                n == self.count * (self.sides - 1) + 1,
                1 <= self.count <= 255,
                1 <= self.sides <= 255,
        ;
        while j < n
            invariant
                j <= n <= 255 * 254 + 1,
                lowest == self.lowest(),
                totals.len() == j,
                forall|i: int| 0 <= i < j ==> #[trigger] totals[i] == lowest + i,
            decreases n - j,
        {
            totals.push(lowest + j as i64);
            j = j + 1;
        }
        let distribution = Distribution { totals, frequencies: row, outcomes };
        assert(distribution.describes(*self)) by {
            assert(self.highest() - self.lowest() + 1 == n) by (nonlinear_arith)
                requires
                    n == self.count * (self.sides - 1) + 1,
                    self.highest() - self.lowest() == self.count * self.sides - self.count,
            ;
        }
        Some(distribution)
    }
}

impl Distribution {
    /// Whether this is the distribution of a roll of `dice`: the totals are
    /// all the integers from the least to the greatest, in ascending order,
    /// each with its frequency, beside the number of all outcomes.
    pub open spec fn describes(&self, dice: Dice) -> bool {
        &&& self.totals.len() == dice.highest() - dice.lowest() + 1
        &&& self.frequencies.len() == self.totals.len()
        &&& forall|i: int|
            0 <= i < self.totals.len() ==> #[trigger] self.totals[i] == dice.lowest() + i
        &&& forall|i: int|
            0 <= i < self.frequencies.len() ==> #[trigger] self.frequencies[i] == dice.frequency(
                dice.lowest() + i,
            )
        &&& self.outcomes == dice.outcomes()
    }
}

/// From the ways of `rolled` dice to those of one die more.
fn add_die(row: &Vec<u64>, rolled: u8, sides: u8) -> (next: Vec<u64>)
    requires
        sides >= 1,
        rolled < 255,
        is_row(row@, rolled as nat, sides as nat),
        power(sides as nat, (rolled + 1) as nat) <= u64::MAX,
    ensures
        is_row(next@, (rolled + 1) as nat, sides as nat),
{
    let len: usize = row.len();
    let faces: usize = sides as usize;
    assert(len <= 254 * 254 + 1) by (nonlinear_arith)
        requires
            len == rolled * (sides - 1) + 1,
            rolled <= 254,
            1 <= sides <= 255,
    ;
    assert((rolled + 1) * (sides - 1) + 1 == len + sides - 1) by (nonlinear_arith)
        requires
            len == rolled * (sides - 1) + 1,
    ;
    let next_len: usize = len + faces - 1;
    let mut next: Vec<u64> = Vec::new();
    let mut j: usize = 0;
    while j < next_len
        invariant
            j <= next_len,
            next_len == len + faces - 1,
            len == row.len(),
            len <= 254 * 254 + 1,
            faces == sides,
            sides >= 1,
            rolled < 255,
            is_row(row@, rolled as nat, sides as nat),
            power(sides as nat, (rolled + 1) as nat) <= u64::MAX,
            next.len() == j,
            forall|i: int|
                0 <= i < j ==> #[trigger] next[i] == ways(
                    (rolled + 1) as nat,
                    sides as nat,
                    rolled + 1 + i,
                ),
        decreases next_len - j,
    {
        let ghost sum: int = rolled + 1 + j;
        let mut acc: u64 = 0;
        let mut face: usize = 1;
        while face <= faces
            invariant
                1 <= face <= faces + 1,
                j < next_len,
                next_len == len + faces - 1,
                len == row.len(),
                len <= 254 * 254 + 1,
                faces == sides,
                rolled < 255,
                sum == rolled + 1 + j,
                is_row(row@, rolled as nat, sides as nat),
                power(sides as nat, (rolled + 1) as nat) <= u64::MAX,
                acc == ways_upto(rolled as nat, sides as nat, sum, (face - 1) as nat),
            decreases faces + 1 - face,
        {
            proof {
                lemma_ways_upto_grows(
                    rolled as nat,
                    sides as nat,
                    sum,
                    face as nat,
                    sides as nat,
                );
                lemma_ways_bound((rolled + 1) as nat, sides as nat, sum);
            }
            if face <= j + 1 && j + 1 - face < len {
                assert(row[j + 1 - face] == ways(rolled as nat, sides as nat, sum - face));
                acc = acc + row[j + 1 - face];
            } else {
                proof {
                    assert(rolled * sides == rolled * (sides - 1) + rolled) by (nonlinear_arith);
                    lemma_ways_outside(rolled as nat, sides as nat, sum - face);
                }
            }
            face = face + 1;
        }
        next.push(acc);
        j = j + 1;
    }
    next
}

impl Distribution {
    /// The frequencies of a distribution sum to the number of all outcomes:
    /// no outcome is left out and none is counted twice.
    pub proof fn lemma_frequencies_sum(&self, dice: Dice)
        requires
            dice.wf(),
            self.describes(dice),
        ensures
            sum_of(self.frequencies@) == self.outcomes,
    {
        let count = dice.count as nat;
        let sides = dice.sides as nat;
        let n = self.frequencies@.len() as int;
        assert(count + n == count * sides + 1) by (nonlinear_arith)
            requires
                n == dice.highest() - dice.lowest() + 1,
                dice.highest() - dice.lowest() == count * sides - count,
        ;
        lemma_sum_of_row(self.frequencies@, count, sides, n);
        assert(self.frequencies@.take(n) == self.frequencies@);
        lemma_ways_total(count, sides, count as int, count + n);
    }

    /// A roll has one distribution: two that describe the same dice agree in
    /// every total, every frequency and the number of outcomes.
    pub proof fn lemma_one_distribution(&self, other: &Distribution, dice: Dice)
        requires
            self.describes(dice),
            other.describes(dice),
        ensures
            self.totals@ == other.totals@,
            self.frequencies@ == other.frequencies@,
            self.outcomes == other.outcomes,
    {
        assert(self.totals@ =~= other.totals@);
        assert(self.frequencies@ =~= other.frequencies@);
    }
}

/// The first `n` entries of a row of frequencies sum to the ways to come to
/// the first `n` sums.
proof fn lemma_sum_of_row(row: Seq<u64>, count: nat, sides: nat, n: int)
    requires
        0 <= n <= row.len(),
        forall|j: int| 0 <= j < row.len() ==> #[trigger] row[j] == ways(count, sides, count + j),
    ensures
        sum_of(row.take(n)) == ways_between(count, sides, count as int, count + n),
    decreases n,
{
    if n > 0 {
        lemma_sum_of_row(row, count, sides, n - 1);
        assert(row.take(n).drop_last() == row.take(n - 1));
    }
}

} // verus!
