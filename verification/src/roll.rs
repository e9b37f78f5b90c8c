//! Rolling dice: drawing the faces at random and adding them up.

use rand::Rng;
use vstd::prelude::*;
use crate::dice::Dice;

verus! {

/// The sum of `faces`.
pub open spec fn face_sum(faces: Seq<u8>) -> nat
    decreases faces.len(),
{
    if faces.len() == 0 {
        0
    } else {
        face_sum(faces.drop_last()) + faces.last() as nat
    }
}

/// Whether each of `faces` is a face of a die with `sides` sides.
pub open spec fn are_faces(faces: Seq<u8>, sides: u8) -> bool {
    forall|i: int| 0 <= i < faces.len() ==> 1 <= #[trigger] faces[i] <= sides
}

/// The faces of some dice sum to at least their number and to at most that
/// number times the sides.
pub proof fn lemma_face_sum_bounds(faces: Seq<u8>, sides: u8)
    requires
        are_faces(faces, sides),
    ensures
        faces.len() <= face_sum(faces) <= faces.len() * sides,
    decreases faces.len(),
{
    if faces.len() > 0 {
        let front = faces.drop_last();
        assert(are_faces(front, sides)) by {
            assert forall|i: int| 0 <= i < front.len() implies 1 <= #[trigger] front[i]
                <= sides by {
                assert(front[i] == faces[i]);
            }
        }
        lemma_face_sum_bounds(front, sides);
        assert(front.len() * sides + sides == faces.len() * sides) by (nonlinear_arith)
            requires
                front.len() + 1 == faces.len(),
        ;
    } else {
        assert(faces.len() * sides == 0) by (nonlinear_arith)
            requires
                faces.len() == 0,
        ;
    }
}

/// Draws one face of a die with `sides` sides by `rand::Rng::random_range`
/// over `1..=sides`, on the generator of the running thread that
/// `rand::rng` hands out. Trusted, and not proved: the call returns, and the
/// face drawn lies in that range, which is not empty. Which face comes is
/// left to chance; `rand` samples the range uniformly. Where the system has
/// no randomness to seed the generator with, `rand` ends the program.
#[verifier::external_body]
fn draw(sides: u8) -> (face: u8)
    requires
        sides >= 1,
    ensures
        1 <= face <= sides,
{
    rand::rng().random_range(1..=sides)
}

impl Dice {
    /// Rolls the dice once and returns the face that each of them shows.
    pub fn roll_faces(&self) -> (faces: Vec<u8>)
        requires
            self.wf(),
        ensures
            faces.len() == self.count,
            are_faces(faces@, self.sides),
    {
        let mut faces: Vec<u8> = Vec::new();
        let mut i: u8 = 0;
        while i < self.count
            invariant
                i <= self.count,
                self.sides >= 1,
                faces.len() == i,
                are_faces(faces@, self.sides),
            decreases self.count - i,
        {
            let face: u8 = draw(self.sides);
            faces.push(face);
            i = i + 1;
        }
        faces
    }

    /// The total of a roll in which the dice show `faces`: their sum and
    /// the modifier.
    pub fn total_of(&self, faces: &Vec<u8>) -> (total: i64)
        requires
            faces.len() == self.count,
        ensures
            total == face_sum(faces@) + self.modifier,
    {
        let mut sum: i64 = 0;
        let mut i: usize = 0;
        assert(faces@.take(0) =~= Seq::<u8>::empty());
        while i < faces.len()
            invariant
                i <= faces.len() <= 255,
                sum == face_sum(faces@.take(i as int)),
                sum <= 255 * i,
            decreases faces.len() - i,
        {
            assert(faces@.take(i + 1).drop_last() == faces@.take(i as int));
            sum = sum + faces[i] as i64;
            i = i + 1;
        }
        assert(faces@.take(i as int) == faces@);
        sum + self.modifier as i64
    }

    /// Rolls the dice once and returns the total: the sum of one face for
    /// each die and the modifier, so that it lies between the least and the
    /// greatest total of these dice. Which of them it is is left to chance.
    pub fn roll(&self) -> (total: i64)
        requires
            self.wf(),
        ensures
            self.lowest() <= total <= self.highest(),
            exists|faces: Seq<u8>|
                faces.len() == self.count && are_faces(faces, self.sides) && total
                    == #[trigger] face_sum(faces) + self.modifier,
    {
        let faces: Vec<u8> = self.roll_faces();
        proof {
            lemma_face_sum_bounds(faces@, self.sides);
            assert(face_sum(faces@) <= self.count * self.sides);
        }
        self.total_of(&faces)
    }
}

} // verus!
