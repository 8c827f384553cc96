//! The camera: a cell-size/center description of what part of the plane an
//! external renderer shows. Pure integer math; rendering itself stays outside.

use vstd::prelude::*;
use crate::life::Loc;

verus! {

/// A zoomable, movable window onto the plane, measured in pixels.
pub struct View {
    pub cell_size: i32,
    pub width: u32,
    pub height: u32,
    pub center_row: i32,
    pub center_col: i32,
}

impl View {
    pub fn new(width: u32, height: u32) -> (r: Self)
        ensures
            r.cell_size == 4,
            r.width == width,
            r.height == height,
            r.center_row == 0,
            r.center_col == 0,
    {
        Self { cell_size: 4, width, height, center_row: 0, center_col: 0 }
    }

    /// How many cell columns fit across the window.
    pub fn max_cols(&self) -> (r: i32)
        requires
            self.cell_size >= 1,
            self.width <= i32::MAX,
        ensures
            r == self.width as int / self.cell_size as int,
    {
        (self.width as i32) / self.cell_size
    }

    /// How many cell rows fit down the window.
    pub fn max_rows(&self) -> (r: i32)
        requires
            self.cell_size >= 1,
            self.height <= i32::MAX,
        ensures
            r == self.height as int / self.cell_size as int,
    {
        (self.height as i32) / self.cell_size
    }

    /// Grow cells by one pixel, capped at 20.
    pub fn zoom_in(&mut self)
        requires
            old(self).cell_size < i32::MAX,
        ensures
            final(self).cell_size == if old(self).cell_size + 1 <= 20 {
                old(self).cell_size + 1
            } else {
                20int
            },
            final(self).width == old(self).width,
            final(self).height == old(self).height,
            final(self).center_row == old(self).center_row,
            final(self).center_col == old(self).center_col,
    {
        self.cell_size = if self.cell_size + 1 <= 20 {
            self.cell_size + 1
        } else {
            20
        };
    }

    /// Shrink cells by one pixel, floored at 1.
    pub fn zoom_out(&mut self)
        requires
            old(self).cell_size > i32::MIN,
        ensures
            final(self).cell_size == if old(self).cell_size - 1 >= 1 {
                old(self).cell_size - 1
            } else {
                1int
            },
            final(self).width == old(self).width,
            final(self).height == old(self).height,
            final(self).center_row == old(self).center_row,
            final(self).center_col == old(self).center_col,
    {
        self.cell_size = if self.cell_size - 1 >= 1 {
            self.cell_size - 1
        } else {
            1
        };
    }

    /// Whether `loc`, shifted by the camera center, falls inside the window.
    pub fn visible(&self, loc: &Loc) -> (r: bool)
        requires
            self.cell_size >= 1,
            self.width <= i32::MAX,
            self.height <= i32::MAX,
            i32::MIN <= loc.row <= i32::MAX,
            i32::MIN <= loc.col <= i32::MAX,
            i32::MIN <= loc.row + self.center_row <= i32::MAX,
            i32::MIN <= loc.col + self.center_col <= i32::MAX,
        ensures
            r == {
                let max_rows = self.height as int / self.cell_size as int;
                let max_cols = self.width as int / self.cell_size as int;
                &&& loc.row + self.center_row >= -(max_rows / 2)
                &&& loc.col + self.center_col >= -(max_cols / 2)
                &&& loc.row + self.center_row < max_rows / 2
                &&& loc.col + self.center_col < max_cols / 2
            },
    {
        let max_rows = self.max_rows();
        let max_cols = self.max_cols();
        (loc.row as i32 + self.center_row) >= -max_rows / 2
            && (loc.col as i32 + self.center_col) >= -max_cols / 2
            && (loc.row as i32 + self.center_row) < max_rows / 2
            && (loc.col as i32 + self.center_col) < max_cols / 2
    }
}

} // verus!
