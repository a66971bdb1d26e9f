//! The order of a render: rows from the top, each row from the left, and for
//! each pixel its samples first and its output after them.
//!
//! A [`Sweep`] hands out one step at a time. Whoever drives it traces a ray
//! for each [`Step::Trace`] and writes the averaged pixel at each
//! [`Step::Emit`].

use crate::ppm::pixel_count;
use vstd::arithmetic::div_mod::lemma_fundamental_div_mod_converse;
use vstd::prelude::*;

verus! {

/// One step of a render.
#[derive(Clone, Copy, Debug, PartialEq, Eq, Structural)]
pub enum Step {
    /// Trace one more sample ray through the pixel.
    Trace { column: i32, row: i32 },
    /// The pixel has all its samples: write it out.
    Emit { column: i32, row: i32 },
    /// Every pixel is written.
    Done,
}

/// A count as the loops of a render read it: nothing where it is zero or
/// negative.
pub open spec fn count(n: int) -> nat {
    if n > 0 {
        n as nat
    } else {
        0
    }
}

/// The steps spent on one pixel: its samples and its output.
pub open spec fn steps_per_pixel(samples: int) -> nat {
    count(samples) + 1
}

/// The number of steps of a whole render.
pub open spec fn plan_len(width: int, height: int, samples: int) -> nat {
    pixel_count(width, height) * steps_per_pixel(samples)
}

/// The step in place `k` of a render `width` pixels wide with `samples`
/// samples per pixel: the steps of the first pixel, then those of the
/// second, and so on, where the pixels are counted along the rows.
pub open spec fn plan_step(width: int, samples: int, k: int) -> Step {
    let pixel = k / (steps_per_pixel(samples) as int);
    let turn = k % (steps_per_pixel(samples) as int);
    let column = (pixel % width) as i32;
    let row = (pixel / width) as i32;
    if turn < count(samples) {
        Step::Trace { column, row }
    } else {
        Step::Emit { column, row }
    }
}

/// All the steps of a render, in order.
pub open spec fn plan(width: int, height: int, samples: int) -> Seq<Step> {
    Seq::new(plan_len(width, height, samples), |k: int| plan_step(width, samples, k))
}

/// The place in the plan of the step that comes `turn` steps into the pixel
/// in column `column` of row `row`.
pub open spec fn place(width: int, samples: int, column: int, row: int, turn: int) -> int {
    (row * width + column) * steps_per_pixel(samples) + turn
}

/// How far a render has come: its three sizes and the number of steps that
/// were handed out.
pub struct Progress {
    pub width: int,
    pub height: int,
    pub samples: int,
    pub done: nat,
}

impl Progress {
    /// All the steps of this render.
    pub open spec fn plan(self) -> Seq<Step> {
        plan(self.width, self.height, self.samples)
    }

    /// Whether every step was handed out.
    pub open spec fn finished(self) -> bool {
        self.done >= self.plan().len()
    }

    /// The step that is handed out next.
    pub open spec fn next_step(self) -> Step {
        if self.finished() {
            Step::Done
        } else {
            self.plan()[self.done as int]
        }
    }

    /// The render one step further; as it is where it has finished.
    pub open spec fn advanced(self) -> Progress {
        if self.finished() {
            self
        } else {
            Progress { done: self.done + 1, ..self }
        }
    }
}

/// A render under way.
pub struct Sweep {
    width: i32,
    height: i32,
    samples: i32,
    column: i32,
    row: i32,
    taken: i32,
}

impl View for Sweep {
    type V = Progress;

    closed spec fn view(&self) -> Progress {
        Progress {
            width: self.width as int,
            height: self.height as int,
            samples: self.samples as int,
            done: if self.width <= 0 || self.row >= self.height {
                plan_len(self.width as int, self.height as int, self.samples as int)
            } else {
                place(
                    self.width as int,
                    self.samples as int,
                    self.column as int,
                    self.row as int,
                    self.taken as int,
                ) as nat
            },
        }
    }
}

impl Sweep {
    #[verifier::type_invariant]
    spec fn consistent(self) -> bool {
        &&& 0 <= self.row
        &&& 0 <= self.column
        &&& 0 <= self.taken <= count(self.samples as int)
        &&& self.width > 0 && self.row < self.height ==> self.column < self.width
    }

    /// A render of `width` by `height` pixels with `samples` samples per
    /// pixel, before its first step.
    pub fn new(width: i32, height: i32, samples: i32) -> (sweep: Sweep)
        ensures
            sweep@ == (Progress {
                width: width as int,
                height: height as int,
                samples: samples as int,
                done: 0,
            }),
    {
        proof {
            assert(place(width as int, samples as int, 0, 0, 0) == 0) by (nonlinear_arith);
        }
        Sweep { width, height, samples, column: 0, row: 0, taken: 0 }
    }

    /// Hands out the next step of the render; `Step::Done` from the end on.
    pub fn next(&mut self) -> (step: Step)
        ensures
            step == old(self)@.next_step(),
            final(self)@ == old(self)@.advanced(),
    {
        proof {
            use_type_invariant(&*self);
        }
        if self.width <= 0 || self.row >= self.height {
            return Step::Done;
        }
        let column = self.column;
        let row = self.row;
        proof {
            every_pixel_in_turn(
                self.width as int,
                self.height as int,
                self.samples as int,
                column as int,
                row as int,
                self.taken as int,
            );
        }
        if self.taken < self.samples {
            *self = Sweep { taken: self.taken + 1, ..*self };
            return Step::Trace { column, row };
        }
        if column + 1 < self.width {
            proof {
                lemma_next_pixel(
                    self.width as int,
                    self.samples as int,
                    column as int,
                    row as int,
                    column + 1,
                    row as int,
                );
            }
            *self = Sweep { taken: 0, column: column + 1, ..*self };
        } else {
            proof {
                assert((row + 1) * self.width == row * self.width + column + 1)
                    by (nonlinear_arith)
                    requires
                        column + 1 == self.width,
                ;
                lemma_next_pixel(
                    self.width as int,
                    self.samples as int,
                    column as int,
                    row as int,
                    0,
                    row + 1,
                );
                lemma_last_place(self.width as int, self.height as int, self.samples as int);
            }
            *self = Sweep { taken: 0, column: 0, row: row + 1, ..*self };
        }
        Step::Emit { column, row }
    }
}

/// Every pixel of the image has its turn: the plan holds, at the places of
/// the pixel in column `column` of row `row`, one `Trace` of that pixel for
/// each of its samples and then its `Emit`.
pub proof fn every_pixel_in_turn(
    width: int,
    height: int,
    samples: int,
    column: int,
    row: int,
    turn: int,
)
    requires
        0 <= column < width <= i32::MAX,
        0 <= row < height <= i32::MAX,
        0 <= turn <= count(samples),
    ensures
        0 <= place(width, samples, column, row, turn) < plan_len(width, height, samples),
        plan(width, height, samples)[place(width, samples, column, row, turn)] == if turn < count(
            samples,
        ) {
            Step::Trace { column: column as i32, row: row as i32 }
        } else {
            Step::Emit { column: column as i32, row: row as i32 }
        },
{
    let per = steps_per_pixel(samples) as int;
    let pixel = row * width + column;
    let k = place(width, samples, column, row, turn);
    assert(0 <= pixel < width * height) by (nonlinear_arith)
        requires
            pixel == row * width + column,
            0 <= column < width,
            0 <= row < height,
    ;
    assert(0 <= pixel * per + turn < (width * height) * per) by (nonlinear_arith)
        requires
            0 <= pixel < width * height,
            0 <= turn < per,
    ;
    lemma_fundamental_div_mod_converse(k, per, pixel, turn);
    lemma_fundamental_div_mod_converse(pixel, width, row, column);
}

/// The places follow the order of the image: rows from the top, each row
/// from the left, and within a pixel its samples before its output.
pub proof fn places_in_image_order(
    width: int,
    samples: int,
    column: int,
    row: int,
    turn: int,
    other_column: int,
    other_row: int,
    other_turn: int,
)
    requires
        0 <= column < width,
        0 <= other_column < width,
        0 <= turn <= count(samples),
        0 <= other_turn <= count(samples),
    ensures
        place(width, samples, column, row, turn) < place(
            width,
            samples,
            other_column,
            other_row,
            other_turn,
        ) <==> row < other_row || (row == other_row && (column < other_column || (column
            == other_column && turn < other_turn))),
{
    let per = steps_per_pixel(samples) as int;
    let pixel = row * width + column;
    let other_pixel = other_row * width + other_column;
    assert(pixel < other_pixel <==> row < other_row || (row == other_row && column
        < other_column)) by (nonlinear_arith)
        requires
            pixel == row * width + column,
            other_pixel == other_row * width + other_column,
            0 <= column < width,
            0 <= other_column < width,
    ;
    assert(pixel * per + turn < other_pixel * per + other_turn <==> pixel < other_pixel || (pixel
        == other_pixel && turn < other_turn)) by (nonlinear_arith)
        requires
            0 <= turn < per,
            0 <= other_turn < per,
    ;
    assert(pixel == other_pixel <==> row == other_row && column == other_column)
        by (nonlinear_arith)
        requires
            pixel == row * width + column,
            other_pixel == other_row * width + other_column,
            0 <= column < width,
            0 <= other_column < width,
    ;
}

/// The first step of a pixel comes right after the output of the pixel
/// before it.
proof fn lemma_next_pixel(
    width: int,
    samples: int,
    column: int,
    row: int,
    next_column: int,
    next_row: int,
)
    requires
        next_row * width + next_column == row * width + column + 1,
    ensures
        place(width, samples, next_column, next_row, 0) == place(
            width,
            samples,
            column,
            row,
            count(samples) as int,
        ) + 1,
{
    let per = steps_per_pixel(samples) as int;
    let pixel = row * width + column;
    assert((pixel + 1) * per == pixel * per + per) by (nonlinear_arith);
}

/// The first place below the last row is the length of the plan.
proof fn lemma_last_place(width: int, height: int, samples: int)
    requires
        0 < width,
        0 < height,
    ensures
        place(width, samples, 0, height, 0) == plan_len(width, height, samples),
{
    assert(height * width == width * height) by (nonlinear_arith);
}

} // verus!
