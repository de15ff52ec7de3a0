//! The turtle: where it is, where it points, and what its pen does.
//!
//! A coordinate is kept as the decimal text of a real number, the form in
//! which the queries `XCOR` and `YCOR` hand it to a program.

use vstd::prelude::*;

verus! {

#[derive(Clone, Copy, Debug, PartialEq, Eq, Structural)]
pub enum PenState {
    Up,
    Down,
}

pub struct Turtle {
    /// The x and the y coordinate.
    pub coords: (String, String),
    /// Index of the pen's colour.
    pub colour: usize,
    pub pen_state: PenState,
    /// Degrees clockwise from straight up; not reduced to a full turn.
    pub heading: i32,
}

/// A turtle as contracts see it.
pub struct TurtleView {
    pub x: Seq<char>,
    pub y: Seq<char>,
    pub colour: usize,
    pub pen_state: PenState,
    pub heading: i32,
}

impl View for Turtle {
    type V = TurtleView;

    open spec fn view(&self) -> TurtleView {
        TurtleView {
            x: self.coords.0@,
            y: self.coords.1@,
            colour: self.colour,
            pen_state: self.pen_state,
            heading: self.heading,
        }
    }
}

/// The direction of a move `offset` degrees to the right of `heading`, in
/// degrees clockwise from straight up, if it is a 32-bit integer.
pub open spec fn absolute_direction(heading: int, offset: int) -> Option<i32> {
    if i32::MIN <= heading + offset <= i32::MAX {
        Some((heading + offset) as i32)
    } else {
        None
    }
}

impl Turtle {
    /// A turtle at `coords` that points straight up, with the pen up and the
    /// colour white.
    pub fn new(coords: (String, String)) -> (r: Self)
        ensures
            r@ == (TurtleView {
                x: coords.0@,
                y: coords.1@,
                colour: 7,
                pen_state: PenState::Up,
                heading: 0,
            }),
    {
        Turtle { coords, colour: 7, pen_state: PenState::Up, heading: 0 }
    }

    pub fn change_penstate(&mut self, new_value: PenState)
        ensures
            final(self)@ == (TurtleView { pen_state: new_value, ..old(self)@ }),
    {
        self.pen_state = new_value;
    }

    pub fn change_colour(&mut self, new_value: usize)
        ensures
            final(self)@ == (TurtleView { colour: new_value, ..old(self)@ }),
    {
        self.colour = new_value;
    }

    pub fn change_x(&mut self, new_value: String)
        ensures
            final(self)@ == (TurtleView { x: new_value@, ..old(self)@ }),
    {
        self.coords.0 = new_value;
    }

    pub fn change_y(&mut self, new_value: String)
        ensures
            final(self)@ == (TurtleView { y: new_value@, ..old(self)@ }),
    {
        self.coords.1 = new_value;
    }

    pub fn change_heading(&mut self, new_value: i32)
        ensures
            final(self)@ == (TurtleView { heading: new_value, ..old(self)@ }),
    {
        self.heading = new_value;
    }

    /// Turns the turtle by `turn` degrees to the right.
    pub fn turn(&mut self, turn: i32)
        requires
            i32::MIN <= old(self).heading + turn <= i32::MAX,
        ensures
            final(self)@ == (TurtleView {
                heading: (old(self).heading + turn) as i32,
                ..old(self)@
            }),
    {
        self.heading = self.heading + turn;
    }

    /// The direction of a move `offset` degrees to the right of the heading.
    pub fn direction(&self, offset: i32) -> (r: Option<i32>)
        ensures
            r == absolute_direction(self.heading as int, offset as int),
    {
        self.heading.checked_add(offset)
    }
}

} // verus!
