use vstd::prelude::*;
use crate::model::{
    block_rect, blocks_ok, no_overlap, occupied, rect_covers, rect_in_board, rect_positive,
    rects_overlap, wf, Board, StateV,
};

verus! {

/// The character shown for a cell: the covering block's identifier, or the
/// filler `'.'` for a free cell. Under `no_overlap` the coverer is unique.
pub open spec fn cell_char(s: StateV, x: int, y: int) -> char {
    if occupied(s, x, y) {
        let i = choose|i: int|
            0 <= i < s.blocks.len() && rect_covers(block_rect((#[trigger] s.blocks[i]).1), x, y);
        s.blocks[i].0
    } else {
        '.'
    }
}

impl Board {
    /// True iff some block covers cell `(x, y)`.
    pub fn occupied_at(&self, x: i32, y: i32) -> (r: bool)
        requires
            blocks_ok(self@),
        ensures
            r == occupied(self@, x as int, y as int),
    {
        let mut i: usize = 0;
        while i < self.state.len()
            invariant
                blocks_ok(self@),
                i <= self.state@.len(),
                forall|k: int|
                    0 <= k < i ==> !rect_covers(
                        block_rect((#[trigger] self.state@[k]).1),
                        x as int,
                        y as int,
                    ),
            decreases self.state@.len() - i,
        {
            let b = &self.state[i].1;
            proof {
                assert(rect_positive(block_rect(self@.blocks[i as int].1)) && rect_in_board(
                    self@.size,
                    block_rect(self@.blocks[i as int].1),
                ));
            }
            if b.pos.0 <= x && x < b.pos.0 + b.size.0 && b.pos.1 <= y && y < b.pos.1 + b.size.1 {
                proof {
                    assert(rect_covers(block_rect(self@.blocks[i as int].1), x as int, y as int));
                }
                return true;
            }
            i = i + 1;
        }
        proof {
            if occupied(self@, x as int, y as int) {
                let w = choose|k: int|
                    0 <= k < self@.blocks.len() && rect_covers(
                        block_rect((#[trigger] self@.blocks[k]).1),
                        x as int,
                        y as int,
                    );
                assert(false);
            }
        }
        false
    }

    /// The character for cell `(x, y)`: the unique covering block's name,
    /// or `'.'` when the cell is free.
    pub fn cell_at(&self, x: i32, y: i32) -> (r: char)
        requires
            blocks_ok(self@),
            no_overlap(self@),
        ensures
            r == cell_char(self@, x as int, y as int),
    {
        let mut i: usize = 0;
        while i < self.state.len()
            invariant
                blocks_ok(self@),
                no_overlap(self@),
                i <= self.state@.len(),
                forall|k: int|
                    0 <= k < i ==> !rect_covers(
                        block_rect((#[trigger] self.state@[k]).1),
                        x as int,
                        y as int,
                    ),
            decreases self.state@.len() - i,
        {
            let b = &self.state[i].1;
            proof {
                assert(rect_positive(block_rect(self@.blocks[i as int].1)) && rect_in_board(
                    self@.size,
                    block_rect(self@.blocks[i as int].1),
                ));
            }
            if b.pos.0 <= x && x < b.pos.0 + b.size.0 && b.pos.1 <= y && y < b.pos.1 + b.size.1 {
                proof {
                    assert(rect_covers(block_rect(self@.blocks[i as int].1), x as int, y as int));
                    assert(occupied(self@, x as int, y as int));
                    let j = choose|j: int|
                        0 <= j < self@.blocks.len() && rect_covers(
                            block_rect((#[trigger] self@.blocks[j]).1),
                            x as int,
                            y as int,
                        );
                    if j != i as int {
                        assert(rects_overlap(
                            block_rect(self@.blocks[i as int].1),
                            block_rect(self@.blocks[j].1),
                        ));
                        assert(false);
                    }
                }
                return self.state[i].0;
            }
            i = i + 1;
        }
        proof {
            if occupied(self@, x as int, y as int) {
                let w = choose|k: int|
                    0 <= k < self@.blocks.len() && rect_covers(
                        block_rect((#[trigger] self@.blocks[k]).1),
                        x as int,
                        y as int,
                    );
                assert(false);
            }
        }
        '.'
    }

    /// The occupancy grid: `r[y][x]` is true iff cell `(x, y)` is covered
    /// by some block. Derived fresh from the state; never stored in it.
    pub fn get_grid(&self) -> (r: Vec<Vec<bool>>)
        requires
            wf(self@),
        ensures
            r@.len() == self@.size.1 as int,
            forall|yy: int| 0 <= yy < r@.len() ==> (#[trigger] r@[yy])@.len() == self@.size.0 as int,
            forall|yy: int, xx: int|
                0 <= yy < self@.size.1 && 0 <= xx < self@.size.0 ==> r@[yy]@[xx] == occupied(
                    self@,
                    xx,
                    yy,
                ),
    {
        let w = self.size.0;
        let h = self.size.1;
        let mut grid: Vec<Vec<bool>> = Vec::new();
        let mut y: i32 = 0;
        while y < h
            invariant
                wf(self@),
                w == self@.size.0,
                h == self@.size.1,
                0 <= y <= h,
                grid@.len() == y as int,
                forall|yy: int| 0 <= yy < y ==> (#[trigger] grid@[yy])@.len() == w as int,
                forall|yy: int, xx: int|
                    0 <= yy < y && 0 <= xx < w ==> grid@[yy]@[xx] == occupied(self@, xx, yy),
            decreases h - y,
        {
            let mut row: Vec<bool> = Vec::new();
            let mut x: i32 = 0;
            while x < w
                invariant
                    wf(self@),
                    w == self@.size.0,
                    0 <= x <= w,
                    row@.len() == x as int,
                    forall|xx: int| 0 <= xx < x ==> row@[xx] == occupied(self@, xx, y as int),
                decreases w - x,
            {
                row.push(self.occupied_at(x, y));
                x = x + 1;
            }
            grid.push(row);
            y = y + 1;
        }
        grid
    }

    /// The board rendered one character per cell: `r[y][x]` is the filler
    /// `'.'` for a free cell, else the covering block's identifier.
    pub fn render(&self) -> (r: Vec<Vec<char>>)
        requires
            wf(self@),
        ensures
            r@.len() == self@.size.1 as int,
            forall|yy: int| 0 <= yy < r@.len() ==> (#[trigger] r@[yy])@.len() == self@.size.0 as int,
            forall|yy: int, xx: int|
                0 <= yy < self@.size.1 && 0 <= xx < self@.size.0 ==> r@[yy]@[xx] == cell_char(
                    self@,
                    xx,
                    yy,
                ),
    {
        let w = self.size.0;
        let h = self.size.1;
        let mut grid: Vec<Vec<char>> = Vec::new();
        let mut y: i32 = 0;
        while y < h
            invariant
                wf(self@),
                w == self@.size.0,
                h == self@.size.1,
                0 <= y <= h,
                grid@.len() == y as int,
                forall|yy: int| 0 <= yy < y ==> (#[trigger] grid@[yy])@.len() == w as int,
                forall|yy: int, xx: int|
                    0 <= yy < y && 0 <= xx < w ==> grid@[yy]@[xx] == cell_char(self@, xx, yy),
            decreases h - y,
        {
            let mut row: Vec<char> = Vec::new();
            let mut x: i32 = 0;
            while x < w
                invariant
                    wf(self@),
                    w == self@.size.0,
                    0 <= x <= w,
                    row@.len() == x as int,
                    forall|xx: int| 0 <= xx < x ==> row@[xx] == cell_char(self@, xx, y as int),
                decreases w - x,
            {
                row.push(self.cell_at(x, y));
                x = x + 1;
            }
            grid.push(row);
            y = y + 1;
        }
        grid
    }
}

} // verus!
