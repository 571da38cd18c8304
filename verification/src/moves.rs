use vstd::prelude::*;
use crate::model::{
    block_rect, blocks_ok, idx_of, lemma_idx_of_unique, lemma_overlap_gives_cell, names_unique,
    no_overlap, occupied, rect_covers, rect_in_board, rect_positive, rects_overlap, wf, Block,
    Board, Dir, Rect, StateV,
};

verus! {

/// Unit displacement of a direction, x component.
pub open spec fn dx(d: Dir) -> int {
    match d {
        Dir::Down => 0,
        Dir::Up => 0,
        Dir::Right => 1,
        Dir::Left => -1,
    }
}

/// Unit displacement of a direction, y component.
pub open spec fn dy(d: Dir) -> int {
    match d {
        Dir::Down => 1,
        Dir::Up => -1,
        Dir::Right => 0,
        Dir::Left => 0,
    }
}

/// Position of a direction in the fixed enumeration order.
pub open spec fn dir_rank(d: Dir) -> int {
    match d {
        Dir::Down => 0,
        Dir::Up => 1,
        Dir::Right => 2,
        Dir::Left => 3,
    }
}

/// The geometric inverse of a direction.
pub open spec fn spec_inverse(d: Dir) -> Dir {
    match d {
        Dir::Down => Dir::Up,
        Dir::Up => Dir::Down,
        Dir::Right => Dir::Left,
        Dir::Left => Dir::Right,
    }
}

/// The conventional one-character tag of a direction.
pub open spec fn spec_symbol(d: Dir) -> char {
    match d {
        Dir::Down => 'v',
        Dir::Up => '^',
        Dir::Right => '>',
        Dir::Left => '<',
    }
}

/// The geometric inverse of a direction.
pub fn inverse(d: Dir) -> (r: Dir)
    ensures
        r == spec_inverse(d),
{
    match d {
        Dir::Down => Dir::Up,
        Dir::Up => Dir::Down,
        Dir::Right => Dir::Left,
        Dir::Left => Dir::Right,
    }
}

/// The conventional one-character tag of a direction.
pub fn symbol(d: Dir) -> (r: char)
    ensures
        r == spec_symbol(d),
{
    match d {
        Dir::Down => 'v',
        Dir::Up => '^',
        Dir::Right => '>',
        Dir::Left => '<',
    }
}

/// The direction at a given enumeration position.
fn dir_from_rank(r: u8) -> (d: Dir)
    requires
        r < 4,
    ensures
        dir_rank(d) == r as int,
{
    if r == 0 {
        Dir::Down
    } else if r == 1 {
        Dir::Up
    } else if r == 2 {
        Dir::Right
    } else {
        Dir::Left
    }
}

/// Footprint of a block after one step in direction `d`, on the unbounded
/// integer grid (no truncation).
pub open spec fn shifted_rect(b: Block, d: Dir) -> Rect {
    Rect {
        x: b.pos.0 + dx(d),
        y: b.pos.1 + dy(d),
        w: b.size.0 as int,
        h: b.size.1 as int,
    }
}

/// The block value after one step in direction `d`. Meaningful only when
/// the step is legal, which keeps the coordinates in range.
pub open spec fn shifted_block(b: Block, d: Dir) -> Block {
    Block { pos: (((b.pos.0 + dx(d)) as i32), ((b.pos.1 + dy(d)) as i32)), size: b.size }
}

/// Block `i` may move one cell in direction `d`: the new footprint stays
/// on the board and intersects no other block.
pub open spec fn legal_at(s: StateV, i: int, d: Dir) -> bool {
    &&& 0 <= i < s.blocks.len()
    &&& rect_in_board(s.size, shifted_rect(s.blocks[i].1, d))
    &&& forall|j: int|
        0 <= j < s.blocks.len() && j != i ==> !rects_overlap(
            shifted_rect(s.blocks[i].1, d),
            block_rect((#[trigger] s.blocks[j]).1),
        )
}

/// The state after block `i` moves one cell in direction `d`: identical
/// except for that block's anchor.
pub open spec fn apply(s: StateV, i: int, d: Dir) -> StateV {
    StateV {
        size: s.size,
        blocks: s.blocks.update(i, (s.blocks[i].0, shifted_block(s.blocks[i].1, d))),
    }
}

/// Number of destination cells along the moving block's leading edge.
pub open spec fn strip_span(b: Block, d: Dir) -> int {
    match d {
        Dir::Down | Dir::Up => b.size.0 as int,
        Dir::Right | Dir::Left => b.size.1 as int,
    }
}

/// The `t`-th destination cell, one step past the leading edge.
pub open spec fn strip_cell(b: Block, d: Dir, t: int) -> (int, int) {
    match d {
        Dir::Down => (b.pos.0 + t, b.pos.1 + b.size.1),
        Dir::Up => (b.pos.0 + t, b.pos.1 - 1),
        Dir::Right => (b.pos.0 + b.size.0, b.pos.1 + t),
        Dir::Left => (b.pos.0 - 1, b.pos.1 + t),
    }
}

/// The cell is on the board and free.
pub open spec fn cell_ok(s: StateV, x: int, y: int) -> bool {
    0 <= x < s.size.0 && 0 <= y < s.size.1 && !occupied(s, x, y)
}

/// Every destination cell of block `i` in direction `d` is on the board
/// and free.
pub open spec fn strip_ok(s: StateV, i: int, d: Dir) -> bool {
    forall|t: int|
        0 <= t < strip_span(s.blocks[i].1, d) ==> cell_ok(
            s,
            (#[trigger] strip_cell(s.blocks[i].1, d, t)).0,
            strip_cell(s.blocks[i].1, d, t).1,
        )
}

/// Checking only the leading-edge destination cells against the occupancy
/// grid decides exactly the footprint-level legality condition.
pub proof fn lemma_strip_iff_legal(s: StateV, i: int, d: Dir)
    requires
        wf(s),
        0 <= i < s.blocks.len(),
    ensures
        strip_ok(s, i, d) <==> legal_at(s, i, d),
{
    let b = s.blocks[i].1;
    let sr = shifted_rect(b, d);
    let br = block_rect(b);
    assert(rect_positive(br) && rect_in_board(s.size, br));
    if legal_at(s, i, d) {
        assert forall|t: int| 0 <= t < strip_span(b, d) implies cell_ok(
            s,
            (#[trigger] strip_cell(b, d, t)).0,
            strip_cell(b, d, t).1,
        ) by {
            let cx = strip_cell(b, d, t).0;
            let cy = strip_cell(b, d, t).1;
            assert(rect_covers(sr, cx, cy));
            assert(0 <= cx < s.size.0 && 0 <= cy < s.size.1);
            if occupied(s, cx, cy) {
                let j = choose|j: int|
                    0 <= j < s.blocks.len() && rect_covers(
                        block_rect((#[trigger] s.blocks[j]).1),
                        cx,
                        cy,
                    );
                if j == i {
                    assert(rect_covers(br, cx, cy));
                    assert(false);
                } else {
                    assert(rects_overlap(sr, block_rect(s.blocks[j].1)));
                    assert(false);
                }
            }
        }
        assert(strip_ok(s, i, d));
    }
    if strip_ok(s, i, d) {
        assert(strip_span(b, d) >= 1);
        assert(cell_ok(s, (strip_cell(b, d, 0)).0, strip_cell(b, d, 0).1));
        assert(rect_in_board(s.size, sr));
        assert forall|j: int| 0 <= j < s.blocks.len() && j != i implies !rects_overlap(
            sr,
            block_rect((#[trigger] s.blocks[j]).1),
        ) by {
            let bj = block_rect(s.blocks[j].1);
            assert(rect_positive(bj) && rect_in_board(s.size, bj));
            if rects_overlap(sr, bj) {
                assert(rect_positive(sr));
                lemma_overlap_gives_cell(sr, bj);
                let (cx, cy) = choose|cx: int, cy: int|
                    rect_covers(sr, cx, cy) && #[trigger] rect_covers(bj, cx, cy);
                if rect_covers(br, cx, cy) {
                    assert(rects_overlap(br, bj));
                    if i < j {
                        assert(!rects_overlap(
                            block_rect(s.blocks[i].1),
                            block_rect(s.blocks[j].1),
                        ));
                    } else {
                        assert(!rects_overlap(
                            block_rect(s.blocks[j].1),
                            block_rect(s.blocks[i].1),
                        ));
                    }
                    assert(false);
                } else {
                    let t = if dy(d) != 0 {
                        cx - b.pos.0
                    } else {
                        cy - b.pos.1
                    };
                    assert(0 <= t < strip_span(b, d));
                    assert(strip_cell(b, d, t) == (cx, cy));
                    assert(cell_ok(s, cx, cy));
                    assert(rect_covers(block_rect((s.blocks[j]).1), cx, cy));
                    assert(occupied(s, cx, cy));
                    assert(false);
                }
            }
        }
        assert(legal_at(s, i, d));
    }
}

/// A legal move preserves the state invariant: the new state is again
/// in bounds, overlap-free, and carries the same identifiers.
pub proof fn lemma_apply_preserves_wf(s: StateV, i: int, d: Dir)
    requires
        wf(s),
        legal_at(s, i, d),
    ensures
        wf(apply(s, i, d)),
        apply(s, i, d).size == s.size,
        apply(s, i, d).blocks.len() == s.blocks.len(),
        forall|k: int|
            0 <= k < s.blocks.len() ==> (#[trigger] apply(s, i, d).blocks[k]).0 == s.blocks[k].0,
{
    let s2 = apply(s, i, d);
    let b = s.blocks[i].1;
    assert(rect_positive(block_rect(b)) && rect_in_board(s.size, block_rect(b)));
    assert(block_rect(shifted_block(b, d)) == shifted_rect(b, d));
    assert(forall|k: int| 0 <= k < s.blocks.len() && k != i ==> s2.blocks[k] == s.blocks[k]);
    assert(blocks_ok(s2)) by {
        assert forall|k: int| 0 <= k < s2.blocks.len() implies rect_positive(
            block_rect((#[trigger] s2.blocks[k]).1),
        ) && rect_in_board(s2.size, block_rect(s2.blocks[k].1)) by {
            if k != i {
                assert(rect_positive(block_rect((s.blocks[k]).1)) && rect_in_board(
                    s.size,
                    block_rect(s.blocks[k].1),
                ));
            }
        }
    }
    assert(no_overlap(s2)) by {
        assert forall|a: int, c: int| 0 <= a < c < s2.blocks.len() implies !rects_overlap(
            block_rect((#[trigger] s2.blocks[a]).1),
            block_rect((#[trigger] s2.blocks[c]).1),
        ) by {
            if a != i && c != i {
                assert(!rects_overlap(
                    block_rect((s.blocks[a]).1),
                    block_rect((s.blocks[c]).1),
                ));
            } else if a == i {
                assert(!rects_overlap(
                    shifted_rect(s.blocks[i].1, d),
                    block_rect((s.blocks[c]).1),
                ));
            } else {
                assert(!rects_overlap(
                    shifted_rect(s.blocks[i].1, d),
                    block_rect((s.blocks[a]).1),
                ));
            }
        }
    }
    assert(names_unique(s2.blocks)) by {
        assert forall|a: int, c: int| 0 <= a < c < s2.blocks.len() implies (
        #[trigger] s2.blocks[a]).0 != (#[trigger] s2.blocks[c]).0 by {
            assert((s.blocks[a]).0 != (s.blocks[c]).0);
        }
    }
}

/// A legal move never returns the input state: the moved block's anchor
/// changes.
pub proof fn lemma_apply_changes(s: StateV, i: int, d: Dir)
    requires
        wf(s),
        legal_at(s, i, d),
    ensures
        apply(s, i, d) != s,
{
    let b = s.blocks[i].1;
    assert(rect_positive(block_rect(b)) && rect_in_board(s.size, block_rect(b)));
    let b2 = shifted_block(b, d);
    assert(b2.pos != b.pos);
    assert(apply(s, i, d).blocks[i] != s.blocks[i]);
    if apply(s, i, d) == s {
        assert(apply(s, i, d).blocks[i] == s.blocks[i]);
        assert(false);
    }
}

/// The geometric inverse of a legal move is itself legal in the resulting
/// state, and applying it returns exactly the original state.
pub proof fn lemma_move_inverse(s: StateV, i: int, d: Dir)
    requires
        wf(s),
        legal_at(s, i, d),
    ensures
        legal_at(apply(s, i, d), i, spec_inverse(d)),
        apply(apply(s, i, d), i, spec_inverse(d)) == s,
{
    let s2 = apply(s, i, d);
    let b = s.blocks[i].1;
    assert(rect_positive(block_rect(b)) && rect_in_board(s.size, block_rect(b)));
    let b2 = shifted_block(b, d);
    assert(s2.blocks[i].1 == b2);
    assert(shifted_rect(b2, spec_inverse(d)) == block_rect(b));
    assert(forall|j: int| 0 <= j < s.blocks.len() && j != i ==> s2.blocks[j] == s.blocks[j]);
    assert forall|j: int| 0 <= j < s2.blocks.len() && j != i implies !rects_overlap(
        shifted_rect(s2.blocks[i].1, spec_inverse(d)),
        block_rect((#[trigger] s2.blocks[j]).1),
    ) by {
        if i < j {
            assert(!rects_overlap(block_rect(s.blocks[i].1), block_rect(s.blocks[j].1)));
        } else {
            assert(!rects_overlap(block_rect(s.blocks[j].1), block_rect(s.blocks[i].1)));
        }
    }
    assert(legal_at(s2, i, spec_inverse(d)));
    let s3 = apply(s2, i, spec_inverse(d));
    assert(shifted_block(b2, spec_inverse(d)) == b);
    assert forall|k: int| 0 <= k < s.blocks.len() implies s3.blocks[k] == s.blocks[k] by {}
    assert(s3.blocks =~= s.blocks);
    assert(s3 =~= s);
}

/// A strictly increasing sequence of integers drawn from `[0, bound)` has
/// at most `bound` entries.
pub proof fn lemma_increasing_bound(keys: Seq<int>, bound: int)
    requires
        bound >= 0,
        forall|k1: int, k2: int| 0 <= k1 < k2 < keys.len() ==> keys[k1] < keys[k2],
        forall|k: int| 0 <= k < keys.len() ==> 0 <= #[trigger] keys[k] < bound,
    ensures
        keys.len() <= bound,
    decreases keys.len(),
{
    if keys.len() > 0 {
        assert(0 <= keys[keys.len() - 1] < bound);
        let pre = keys.drop_last();
        assert(forall|k: int| 0 <= k < pre.len() ==> pre[k] == keys[k]);
        assert forall|k: int| 0 <= k < pre.len() implies 0 <= #[trigger] pre[k] < bound - 1 by {
            assert(keys[k] < keys[keys.len() - 1]);
            assert(0 <= keys[keys.len() - 1] < bound);
        }
        lemma_increasing_bound(pre, bound - 1);
    }
}

/// Bundles what holds of each generated entry: the tag names an existing
/// block, the move is legal there, and the new board is exactly the input
/// with that block shifted.
pub open spec fn entry_ok(s: StateV, e: ((char, Dir), Board)) -> bool {
    let i = idx_of(s.blocks, e.0.0);
    &&& 0 <= i < s.blocks.len()
    &&& s.blocks[i].0 == e.0.0
    &&& legal_at(s, i, e.0.1)
    &&& e.1@ == apply(s, i, e.0.1)
}

/// The enumeration key of a move tag: block position first, direction
/// order second.
pub open spec fn move_key(s: StateV, c: char, d: Dir) -> int {
    4 * idx_of(s.blocks, c) + dir_rank(d)
}

impl Board {
    /// All destination cells for block `i` in direction `d` are free and
    /// on the board; decided against the occupancy grid.
    fn free_dest(&self, grid: &Vec<Vec<bool>>, i: usize, d: Dir) -> (r: bool)
        requires
            wf(self@),
            i < self@.blocks.len(),
            grid@.len() == self@.size.1 as int,
            forall|yy: int| 0 <= yy < grid@.len() ==> (#[trigger] grid@[yy])@.len() == self@.size.0 as int,
            forall|yy: int, xx: int|
                0 <= yy < self@.size.1 && 0 <= xx < self@.size.0 ==> grid@[yy]@[xx] == occupied(
                    self@,
                    xx,
                    yy,
                ),
        ensures
            r == legal_at(self@, i as int, d),
    {
        let b = self.state[i].1;
        let span: i32 = match d {
            Dir::Down | Dir::Up => b.size.0,
            Dir::Right | Dir::Left => b.size.1,
        };
        let mut t: i32 = 0;
        let mut ok = true;
        while t < span
            invariant
                wf(self@),
                i < self@.blocks.len(),
                b == self@.blocks[i as int].1,
                span == strip_span(b, d),
                grid@.len() == self@.size.1 as int,
                forall|yy: int|
                    0 <= yy < grid@.len() ==> (#[trigger] grid@[yy])@.len() == self@.size.0 as int,
                forall|yy: int, xx: int|
                    0 <= yy < self@.size.1 && 0 <= xx < self@.size.0 ==> grid@[yy]@[xx] == occupied(
                        self@,
                        xx,
                        yy,
                    ),
                0 <= t <= span,
                ok <==> (forall|u: int|
                    0 <= u < t ==> cell_ok(
                        self@,
                        (#[trigger] strip_cell(b, d, u)).0,
                        strip_cell(b, d, u).1,
                    )),
            decreases span - t,
        {
            proof {
                assert(rect_positive(block_rect((self@.blocks[i as int]).1)) && rect_in_board(
                    self@.size,
                    block_rect(self@.blocks[i as int].1),
                ));
            }
            let cx: i32;
            let cy: i32;
            match d {
                Dir::Down => {
                    cx = b.pos.0 + t;
                    cy = b.pos.1 + b.size.1;
                },
                Dir::Up => {
                    cx = b.pos.0 + t;
                    cy = b.pos.1 - 1;
                },
                Dir::Right => {
                    cx = b.pos.0 + b.size.0;
                    cy = b.pos.1 + t;
                },
                Dir::Left => {
                    cx = b.pos.0 - 1;
                    cy = b.pos.1 + t;
                },
            }
            proof {
                assert(strip_cell(b, d, t as int) == (cx as int, cy as int));
            }
            let c_ok: bool;
            if cx >= 0 && cx < self.size.0 && cy >= 0 && cy < self.size.1 {
                c_ok = !grid[cy as usize][cx as usize];
            } else {
                c_ok = false;
            }
            proof {
                assert(c_ok == cell_ok(self@, cx as int, cy as int));
            }
            ok = ok && c_ok;
            proof {
                assert forall|u: int| 0 <= u < t + 1 && (forall|v: int|
                    0 <= v < t ==> cell_ok(
                        self@,
                        (#[trigger] strip_cell(b, d, v)).0,
                        strip_cell(b, d, v).1,
                    )) && c_ok implies cell_ok(
                    self@,
                    (#[trigger] strip_cell(b, d, u)).0,
                    strip_cell(b, d, u).1,
                ) by {
                    if u == t {
                        assert(strip_cell(b, d, u) == (cx as int, cy as int));
                    }
                }
            }
            t = t + 1;
        }
        proof {
            lemma_strip_iff_legal(self@, i as int, d);
        }
        ok
    }

    /// All legal single-block unit moves from this state, each paired with
    /// the resulting board, enumerated in the fixed block-order-then-
    /// direction-order sequence. Every produced state again satisfies the
    /// invariant, differs from the input, and at most four entries exist
    /// per block.
    pub fn get_moves(&self) -> (r: Vec<((char, Dir), Board)>)
        requires
            wf(self@),
        ensures
            forall|k: int| 0 <= k < r@.len() ==> entry_ok(self@, #[trigger] r@[k]),
            forall|k1: int, k2: int|
                0 <= k1 < k2 < r@.len() ==> move_key(self@, (#[trigger] r@[k1]).0.0, r@[k1].0.1)
                    < move_key(self@, (#[trigger] r@[k2]).0.0, r@[k2].0.1),
            forall|i: int, d: Dir|
                0 <= i < self@.blocks.len() && #[trigger] legal_at(self@, i, d) ==> exists|k: int|
                    0 <= k < r@.len() && (#[trigger] r@[k]).0 == (self@.blocks[i].0, d),
            r@.len() <= 4 * self@.blocks.len(),
            forall|k: int| 0 <= k < r@.len() ==> (#[trigger] r@[k]).1@ != self@,
            forall|k: int| 0 <= k < r@.len() ==> wf((#[trigger] r@[k]).1@),
    {
        let grid = self.get_grid();
        let mut out: Vec<((char, Dir), Board)> = Vec::new();
        let mut i: usize = 0;
        while i < self.state.len()
            invariant
                wf(self@),
                grid@.len() == self@.size.1 as int,
                forall|yy: int|
                    0 <= yy < grid@.len() ==> (#[trigger] grid@[yy])@.len() == self@.size.0 as int,
                forall|yy: int, xx: int|
                    0 <= yy < self@.size.1 && 0 <= xx < self@.size.0 ==> grid@[yy]@[xx] == occupied(
                        self@,
                        xx,
                        yy,
                    ),
                i <= self@.blocks.len(),
                forall|k: int| 0 <= k < out@.len() ==> entry_ok(self@, #[trigger] out@[k]),
                forall|k1: int, k2: int|
                    0 <= k1 < k2 < out@.len() ==> move_key(
                        self@,
                        (#[trigger] out@[k1]).0.0,
                        out@[k1].0.1,
                    ) < move_key(self@, (#[trigger] out@[k2]).0.0, out@[k2].0.1),
                forall|k: int|
                    0 <= k < out@.len() ==> move_key(self@, (#[trigger] out@[k]).0.0, out@[k].0.1)
                        < 4 * i,
                forall|ii: int, d: Dir|
                    0 <= ii < i && #[trigger] legal_at(self@, ii, d) ==> exists|k: int|
                        0 <= k < out@.len() && (#[trigger] out@[k]).0 == (self@.blocks[ii].0, d),
                forall|k: int| 0 <= k < out@.len() ==> (#[trigger] out@[k]).1@ != self@,
                forall|k: int| 0 <= k < out@.len() ==> wf((#[trigger] out@[k]).1@),
            decreases self@.blocks.len() - i,
        {
            let mut di: u8 = 0;
            while di < 4
                invariant
                    wf(self@),
                    grid@.len() == self@.size.1 as int,
                    forall|yy: int|
                        0 <= yy < grid@.len() ==> (#[trigger] grid@[yy])@.len() == self@.size.0 as int,
                    forall|yy: int, xx: int|
                        0 <= yy < self@.size.1 && 0 <= xx < self@.size.0 ==> grid@[yy]@[xx]
                            == occupied(self@, xx, yy),
                    i < self@.blocks.len(),
                    di <= 4,
                    forall|k: int| 0 <= k < out@.len() ==> entry_ok(self@, #[trigger] out@[k]),
                    forall|k1: int, k2: int|
                        0 <= k1 < k2 < out@.len() ==> move_key(
                            self@,
                            (#[trigger] out@[k1]).0.0,
                            out@[k1].0.1,
                        ) < move_key(self@, (#[trigger] out@[k2]).0.0, out@[k2].0.1),
                    forall|k: int|
                        0 <= k < out@.len() ==> move_key(
                            self@,
                            (#[trigger] out@[k]).0.0,
                            out@[k].0.1,
                        ) < 4 * i + di,
                    forall|ii: int, d: Dir|
                        (0 <= ii < i || (ii == i && dir_rank(d) < di)) && #[trigger] legal_at(
                            self@,
                            ii,
                            d,
                        ) ==> exists|k: int|
                            0 <= k < out@.len() && (#[trigger] out@[k]).0 == (
                            self@.blocks[ii].0,
                            d,
                            ),
                    forall|k: int| 0 <= k < out@.len() ==> (#[trigger] out@[k]).1@ != self@,
                    forall|k: int| 0 <= k < out@.len() ==> wf((#[trigger] out@[k]).1@),
                decreases 4 - di,
            {
                let d = dir_from_rank(di);
                let ghost prev = out@;
                if self.free_dest(&grid, i, d) {
                    let name = self.state[i].0;
                    let b = self.state[i].1;
                    proof {
                        assert(rect_positive(block_rect((self@.blocks[i as int]).1))
                            && rect_in_board(self@.size, block_rect(self@.blocks[i as int].1)));
                    }
                    let nb = shift_block(b, d);
                    let new_state = replace_at(&self.state, i, (name, nb));
                    let newboard = Board { size: self.size, state: new_state };
                    proof {
                        lemma_idx_of_unique(self@.blocks, i as int);
                        lemma_apply_preserves_wf(self@, i as int, d);
                        lemma_apply_changes(self@, i as int, d);
                        assert(newboard@.blocks =~= apply(self@, i as int, d).blocks);
                        assert(newboard@ =~= apply(self@, i as int, d));
                        assert(entry_ok(self@, ((name, d), newboard)));
                    }
                    out.push(((name, d), newboard));
                    proof {
                        assert(out@ == prev.push(((name, d), newboard)));
                        assert(move_key(self@, name, d) == 4 * i + di);
                        assert(out@[out@.len() - 1].0 == (self@.blocks[i as int].0, d));
                        assert forall|ii: int, d2: Dir|
                            (0 <= ii < i || (ii == i && dir_rank(d2) < di + 1))
                                && #[trigger] legal_at(self@, ii, d2) implies exists|k: int|
                            0 <= k < out@.len() && (#[trigger] out@[k]).0 == (
                            self@.blocks[ii].0,
                            d2,
                            ) by {
                            if ii == i && dir_rank(d2) == di as int {
                                assert(d2 == d);
                                assert(out@[prev.len() as int].0 == (self@.blocks[ii].0, d2));
                            } else {
                                let k0 = choose|k: int|
                                    0 <= k < prev.len() && (#[trigger] prev[k]).0 == (
                                    self@.blocks[ii].0,
                                    d2,
                                    );
                                assert(out@[k0] == prev[k0]);
                            }
                        }
                    }
                } else {
                    proof {
                        assert forall|ii: int, d2: Dir|
                            (0 <= ii < i || (ii == i && dir_rank(d2) < di + 1))
                                && #[trigger] legal_at(self@, ii, d2) implies exists|k: int|
                            0 <= k < out@.len() && (#[trigger] out@[k]).0 == (
                            self@.blocks[ii].0,
                            d2,
                            ) by {
                            if ii == i && dir_rank(d2) == di as int {
                                assert(d2 == d);
                                assert(!legal_at(self@, i as int, d));
                                assert(false);
                            }
                        }
                    }
                }
                di = di + 1;
            }
            proof {
                assert(forall|d2: Dir| 0 <= #[trigger] dir_rank(d2) < 4);
            }
            i = i + 1;
        }
        proof {
            let keys = Seq::new(out@.len(), |k: int| move_key(self@, out@[k].0.0, out@[k].0.1));
            assert forall|k: int| 0 <= k < keys.len() implies 0 <= #[trigger] keys[k] < 4
                * self@.blocks.len() by {
                assert(entry_ok(self@, out@[k]));
                assert(0 <= dir_rank(out@[k].0.1) < 4);
            }
            lemma_increasing_bound(keys, 4 * (self@.blocks.len() as int));
        }
        out
    }
}

/// The block one cell further in direction `d`; the caller guarantees the
/// shift stays within the coordinate type.
pub(crate) fn shift_block(b: Block, d: Dir) -> (r: Block)
    requires
        i32::MIN <= b.pos.0 + dx(d) <= i32::MAX,
        i32::MIN <= b.pos.1 + dy(d) <= i32::MAX,
    ensures
        r == shifted_block(b, d),
{
    let ddx: i32;
    let ddy: i32;
    match d {
        Dir::Down => {
            ddx = 0;
            ddy = 1;
        },
        Dir::Up => {
            ddx = 0;
            ddy = -1;
        },
        Dir::Right => {
            ddx = 1;
            ddy = 0;
        },
        Dir::Left => {
            ddx = -1;
            ddy = 0;
        },
    }
    Block { pos: (b.pos.0 + ddx, b.pos.1 + ddy), size: b.size }
}

/// The tag occurs somewhere in the list.
pub open spec fn tag_in(g: Seq<(char, Dir)>, t: (char, Dir)) -> bool {
    exists|k: int| 0 <= k < g.len() && #[trigger] g[k] == t
}

/// Two strictly key-increasing tag lists with the same members are the
/// same list.
proof fn lemma_tag_enum_unique(s: StateV, g1: Seq<(char, Dir)>, g2: Seq<(char, Dir)>)
    requires
        forall|k1: int, k2: int|
            0 <= k1 < k2 < g1.len() ==> move_key(s, (#[trigger] g1[k1]).0, g1[k1].1) < move_key(
                s,
                (#[trigger] g1[k2]).0,
                g1[k2].1,
            ),
        forall|k1: int, k2: int|
            0 <= k1 < k2 < g2.len() ==> move_key(s, (#[trigger] g2[k1]).0, g2[k1].1) < move_key(
                s,
                (#[trigger] g2[k2]).0,
                g2[k2].1,
            ),
        forall|k: int| 0 <= k < g1.len() ==> #[trigger] tag_in(g2, g1[k]),
        forall|k: int| 0 <= k < g2.len() ==> #[trigger] tag_in(g1, g2[k]),
    ensures
        g1 == g2,
    decreases g1.len(),
{
    if g1.len() == 0 {
        if g2.len() > 0 {
            assert(tag_in(g1, g2[0]));
            assert(false);
        }
        assert(g1 =~= g2);
    } else {
        if g2.len() == 0 {
            assert(tag_in(g2, g1[0]));
            assert(false);
        }
        assert(tag_in(g2, g1[0]));
        assert(tag_in(g1, g2[0]));
        let w1 = choose|k: int| 0 <= k < g2.len() && #[trigger] g2[k] == g1[0];
        let w2 = choose|k: int| 0 <= k < g1.len() && #[trigger] g1[k] == g2[0];
        if w1 > 0 && w2 > 0 {
            assert(move_key(s, g2[0].0, g2[0].1) < move_key(s, g2[w1].0, g2[w1].1));
            assert(move_key(s, g1[0].0, g1[0].1) < move_key(s, g1[w2].0, g1[w2].1));
            assert(false);
        }
        assert(g1[0] == g2[0]);
        let t1 = g1.drop_first();
        let t2 = g2.drop_first();
        assert(forall|k: int| 0 <= k < t1.len() ==> #[trigger] t1[k] == g1[k + 1]);
        assert(forall|k: int| 0 <= k < t2.len() ==> #[trigger] t2[k] == g2[k + 1]);
        assert forall|k: int| 0 <= k < t1.len() implies #[trigger] tag_in(t2, t1[k]) by {
            assert(tag_in(g2, g1[k + 1]));
            let w = choose|k2: int| 0 <= k2 < g2.len() && #[trigger] g2[k2] == g1[k + 1];
            assert(move_key(s, g1[0].0, g1[0].1) < move_key(s, g1[k + 1].0, g1[k + 1].1));
            assert(w != 0);
            assert(t2[w - 1] == t1[k]);
        }
        assert forall|k: int| 0 <= k < t2.len() implies #[trigger] tag_in(t1, t2[k]) by {
            assert(tag_in(g1, g2[k + 1]));
            let w = choose|k2: int| 0 <= k2 < g1.len() && #[trigger] g1[k2] == g2[k + 1];
            assert(move_key(s, g2[0].0, g2[0].1) < move_key(s, g2[k + 1].0, g2[k + 1].1));
            assert(w != 0);
            assert(t1[w - 1] == t2[k]);
        }
        lemma_tag_enum_unique(s, t1, t2);
        assert(g1.len() == g2.len());
        assert forall|k: int| 0 <= k < g1.len() implies #[trigger] g1[k] == g2[k] by {
            if k > 0 {
                assert(t1[k - 1] == t2[k - 1]);
            }
        }
        assert(g1 =~= g2);
    }
}

/// The move tags of an enumeration, in order.
pub open spec fn tags_of(r: Seq<((char, Dir), Board)>) -> Seq<(char, Dir)> {
    Seq::new(r.len(), |k: int| r[k].0)
}

/// Two enumerations that both meet the generator's contract — every entry
/// exact and legal, keys strictly increasing, every legal move present —
/// agree entry by entry: same move tags, same resulting states. Repeated
/// runs on the same input therefore produce an identical move sequence.
pub proof fn lemma_generator_deterministic(
    s: StateV,
    r1: Seq<((char, Dir), Board)>,
    r2: Seq<((char, Dir), Board)>,
)
    requires
        forall|k: int| 0 <= k < r1.len() ==> entry_ok(s, #[trigger] r1[k]),
        forall|k1: int, k2: int|
            0 <= k1 < k2 < r1.len() ==> move_key(s, (#[trigger] r1[k1]).0.0, r1[k1].0.1)
                < move_key(s, (#[trigger] r1[k2]).0.0, r1[k2].0.1),
        forall|i: int, d: Dir|
            0 <= i < s.blocks.len() && #[trigger] legal_at(s, i, d) ==> exists|k: int|
                0 <= k < r1.len() && (#[trigger] r1[k]).0 == (s.blocks[i].0, d),
        forall|k: int| 0 <= k < r2.len() ==> entry_ok(s, #[trigger] r2[k]),
        forall|k1: int, k2: int|
            0 <= k1 < k2 < r2.len() ==> move_key(s, (#[trigger] r2[k1]).0.0, r2[k1].0.1)
                < move_key(s, (#[trigger] r2[k2]).0.0, r2[k2].0.1),
        forall|i: int, d: Dir|
            0 <= i < s.blocks.len() && #[trigger] legal_at(s, i, d) ==> exists|k: int|
                0 <= k < r2.len() && (#[trigger] r2[k]).0 == (s.blocks[i].0, d),
    ensures
        r1.len() == r2.len(),
        forall|k: int| 0 <= k < r1.len() ==> (#[trigger] r1[k]).0 == r2[k].0 && r1[k].1@
            == r2[k].1@,
{
    let g1 = tags_of(r1);
    let g2 = tags_of(r2);
    assert(forall|k: int| 0 <= k < r1.len() ==> #[trigger] g1[k] == r1[k].0);
    assert(forall|k: int| 0 <= k < r2.len() ==> #[trigger] g2[k] == r2[k].0);
    assert forall|k: int| 0 <= k < g1.len() implies #[trigger] tag_in(g2, g1[k]) by {
        assert(entry_ok(s, r1[k]));
        let i = idx_of(s.blocks, r1[k].0.0);
        assert(legal_at(s, i, r1[k].0.1));
        let w = choose|k2: int| 0 <= k2 < r2.len() && (#[trigger] r2[k2]).0 == (
        s.blocks[i].0,
        r1[k].0.1,
        );
        assert(g2[w] == g1[k]);
    }
    assert forall|k: int| 0 <= k < g2.len() implies #[trigger] tag_in(g1, g2[k]) by {
        assert(entry_ok(s, r2[k]));
        let i = idx_of(s.blocks, r2[k].0.0);
        assert(legal_at(s, i, r2[k].0.1));
        let w = choose|k2: int| 0 <= k2 < r1.len() && (#[trigger] r1[k2]).0 == (
        s.blocks[i].0,
        r2[k].0.1,
        );
        assert(g1[w] == g2[k]);
    }
    lemma_tag_enum_unique(s, g1, g2);
    assert(r1.len() == g1.len() && r2.len() == g2.len());
    assert forall|k: int| 0 <= k < r1.len() implies (#[trigger] r1[k]).0 == r2[k].0 && r1[k].1@
        == r2[k].1@ by {
        assert(g1[k] == g2[k]);
        assert(entry_ok(s, r1[k]));
        assert(entry_ok(s, r2[k]));
    }
}

/// The list with the entry at `i` replaced.
pub(crate) fn replace_at(v: &Vec<(char, Block)>, i: usize, val: (char, Block)) -> (r: Vec<(char, Block)>)
    requires
        i < v@.len(),
    ensures
        r@ == v@.update(i as int, val),
{
    let mut r: Vec<(char, Block)> = Vec::new();
    let mut k: usize = 0;
    while k < v.len()
        invariant
            i < v@.len(),
            k <= v@.len(),
            r@.len() == k as int,
            forall|m: int|
                0 <= m < k ==> r@[m] == (if m == i {
                    val
                } else {
                    v@[m]
                }),
        decreases v@.len() - k,
    {
        if k == i {
            r.push(val);
        } else {
            r.push(v[k]);
        }
        k = k + 1;
    }
    proof {
        assert(r@ =~= v@.update(i as int, val));
    }
    r
}

} // verus!
