//! The data held by the adjacency-matrix display widget.
//!
//! The widget itself only paints this state and forwards clicks; everything
//! it shows is carried here as plain values.

use vstd::prelude::*;

verus! {

/// Which rows and columns are hidden from the display.
#[derive(Clone, Debug)]
pub struct DeletedMarks {
    pub rows: Vec<usize>,
    pub cols: Vec<usize>,
}

/// Which rows, columns and single cells are highlighted.
#[derive(Clone, Debug)]
pub struct ColoredMarks {
    pub rows: Vec<usize>,
    pub cols: Vec<usize>,
    pub elements: Vec<(usize, usize)>,
}

/// What the matrix widget shows: the cells of the adjacency matrix, row by
/// row, and the marks that hide or highlight parts of it.
#[derive(Clone, Debug)]
pub struct State {
    pub m: Vec<Vec<u8>>,
    pub deleted: DeletedMarks,
    pub colored: ColoredMarks,
}

/// The matrix widget's model: it owns the state it displays and nothing
/// else. Painting is the embedding application's concern.
#[derive(Clone, Debug)]
pub struct Matrix {
    state: State,
}

impl Matrix {
    /// The state the widget currently displays.
    pub closed spec fn spec_state(self) -> State {
        self.state
    }

    /// A widget showing exactly the given state.
    pub fn new(state: State) -> (m: Matrix)
        ensures
            m.spec_state() == state,
    {
        Matrix { state }
    }

    /// Replaces the displayed state wholesale.
    pub fn set_state(&mut self, state: State)
        ensures
            final(self).spec_state() == state,
    {
        self.state = state;
    }

    /// Read access to the displayed state.
    pub fn state(&self) -> (r: &State)
        ensures
            *r == self.spec_state(),
    {
        &self.state
    }
}

} // verus!
