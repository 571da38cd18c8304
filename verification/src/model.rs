use vstd::prelude::*;

verus! {

/// A cardinal direction in which a block can slide one cell.
/// The declaration order (down, up, right, left) is the fixed order in
/// which the move generator tries directions.
#[derive(Clone, Copy, PartialEq, Eq, Debug)]
pub enum Dir {
    Down,
    Up,
    Right,
    Left,
}

/// A rectangular block: top-left anchor `pos` and size `(w, h)`, in cells.
#[derive(Clone, Copy, PartialEq, Eq, Debug)]
pub struct Block {
    pub pos: (i32, i32),
    pub size: (i32, i32),
}

/// A full board snapshot: board size `(W, H)` plus every block, keyed by a
/// one-character identifier. Two boards are equal iff the sizes match and
/// the block lists match entry for entry; that equality is the dedup key
/// of the search.
#[derive(Debug)]
pub struct Board {
    pub size: (i32, i32),
    pub state: Vec<(char, Block)>,
}

/// Mathematical image of a `Board`: the same data with the block list as a
/// sequence.
#[verifier::ext_equal]
pub ghost struct StateV {
    pub size: (i32, i32),
    pub blocks: Seq<(char, Block)>,
}

impl View for Board {
    type V = StateV;

    open spec fn view(&self) -> StateV {
        StateV { size: self.size, blocks: self.state@ }
    }
}

/// A rectangle on the integer grid, used to state geometry exactly.
pub ghost struct Rect {
    pub x: int,
    pub y: int,
    pub w: int,
    pub h: int,
}

/// The footprint of a block as a rectangle.
pub open spec fn block_rect(b: Block) -> Rect {
    Rect { x: b.pos.0 as int, y: b.pos.1 as int, w: b.size.0 as int, h: b.size.1 as int }
}

/// Cell `(x, y)` lies inside rectangle `r`.
pub open spec fn rect_covers(r: Rect, x: int, y: int) -> bool {
    r.x <= x < r.x + r.w && r.y <= y < r.y + r.h
}

/// Both side lengths are at least one cell.
pub open spec fn rect_positive(r: Rect) -> bool {
    r.w >= 1 && r.h >= 1
}

/// The rectangle lies fully inside a board of the given size.
pub open spec fn rect_in_board(size: (i32, i32), r: Rect) -> bool {
    0 <= r.x && r.x + r.w <= size.0 && 0 <= r.y && r.y + r.h <= size.1
}

/// Two positive rectangles share at least one cell.
pub open spec fn rects_overlap(a: Rect, b: Rect) -> bool {
    a.x < b.x + b.w && b.x < a.x + a.w && a.y < b.y + b.h && b.y < a.y + a.h
}

/// For positive rectangles, interval overlap yields a shared cell.
pub proof fn lemma_overlap_gives_cell(a: Rect, b: Rect)
    requires
        rect_positive(a),
        rect_positive(b),
        rects_overlap(a, b),
    ensures
        exists|x: int, y: int| rect_covers(a, x, y) && #[trigger] rect_covers(b, x, y),
{
    let x = if a.x >= b.x { a.x } else { b.x };
    let y = if a.y >= b.y { a.y } else { b.y };
    assert(rect_covers(a, x, y) && rect_covers(b, x, y));
}

/// Board dimensions are positive.
pub open spec fn dims_ok(s: StateV) -> bool {
    s.size.0 >= 1 && s.size.1 >= 1
}

/// No two entries of the block list carry the same identifier.
pub open spec fn names_unique(blocks: Seq<(char, Block)>) -> bool {
    forall|i: int, j: int|
        0 <= i < j < blocks.len() ==> (#[trigger] blocks[i]).0 != (#[trigger] blocks[j]).0
}

/// Every block has positive size and lies inside the board.
pub open spec fn blocks_ok(s: StateV) -> bool {
    forall|i: int|
        0 <= i < s.blocks.len() ==> rect_positive(block_rect((#[trigger] s.blocks[i]).1))
            && rect_in_board(s.size, block_rect(s.blocks[i].1))
}

/// No two distinct blocks share a cell.
pub open spec fn no_overlap(s: StateV) -> bool {
    forall|i: int, j: int|
        0 <= i < j < s.blocks.len() ==> !rects_overlap(
            block_rect((#[trigger] s.blocks[i]).1),
            block_rect((#[trigger] s.blocks[j]).1),
        )
}

/// The state invariant: positive dimensions, unique identifiers, every
/// block in bounds, no two blocks overlapping.
pub open spec fn wf(s: StateV) -> bool {
    dims_ok(s) && names_unique(s.blocks) && blocks_ok(s) && no_overlap(s)
}

/// Cell `(x, y)` is covered by some block of the state.
pub open spec fn occupied(s: StateV, x: int, y: int) -> bool {
    exists|i: int|
        0 <= i < s.blocks.len() && rect_covers(block_rect((#[trigger] s.blocks[i]).1), x, y)
}

/// Index of the first entry named `c`, or -1 when no entry is.
pub open spec fn idx_of(blocks: Seq<(char, Block)>, c: char) -> int
    decreases blocks.len(),
{
    if blocks.len() == 0 {
        -1
    } else if blocks[0].0 == c {
        0
    } else if idx_of(blocks.drop_first(), c) == -1 {
        -1
    } else {
        idx_of(blocks.drop_first(), c) + 1
    }
}

/// Some entry of the block list is named `c`.
pub open spec fn has_name(blocks: Seq<(char, Block)>, c: char) -> bool {
    exists|i: int| 0 <= i < blocks.len() && (#[trigger] blocks[i]).0 == c
}

/// `idx_of` finds exactly the first entry with the given name.
pub proof fn lemma_idx_of(blocks: Seq<(char, Block)>, c: char)
    ensures
        has_name(blocks, c) <==> 0 <= idx_of(blocks, c) < blocks.len(),
        !has_name(blocks, c) ==> idx_of(blocks, c) == -1,
        0 <= idx_of(blocks, c) ==> blocks[idx_of(blocks, c)].0 == c && (forall|k: int|
            0 <= k < idx_of(blocks, c) ==> (#[trigger] blocks[k]).0 != c),
    decreases blocks.len(),
{
    if blocks.len() == 0 {
        assert(!has_name(blocks, c));
    } else if blocks[0].0 == c {
        assert(has_name(blocks, c));
    } else {
        let rest = blocks.drop_first();
        lemma_idx_of(rest, c);
        assert(forall|k: int| 0 <= k < rest.len() ==> rest[k] == blocks[k + 1]);
        if has_name(blocks, c) {
            let w = choose|i: int| 0 <= i < blocks.len() && (#[trigger] blocks[i]).0 == c;
            assert(w != 0);
            assert(rest[w - 1].0 == c);
            assert(has_name(rest, c));
        }
        if has_name(rest, c) {
            let w = choose|i: int| 0 <= i < rest.len() && (#[trigger] rest[i]).0 == c;
            assert(blocks[w + 1].0 == c);
            assert(has_name(blocks, c));
        }
        if 0 <= idx_of(blocks, c) {
            let m = idx_of(rest, c);
            assert(forall|k: int| 1 <= k < m + 1 ==> (#[trigger] blocks[k]).0 == rest[k - 1].0);
        }
    }
}

/// Under unique names, `idx_of` of an entry's own name is its index.
pub proof fn lemma_idx_of_unique(blocks: Seq<(char, Block)>, i: int)
    requires
        names_unique(blocks),
        0 <= i < blocks.len(),
    ensures
        idx_of(blocks, blocks[i].0) == i,
{
    let c = blocks[i].0;
    lemma_idx_of(blocks, c);
    assert(has_name(blocks, c));
    let m = idx_of(blocks, c);
    if m < i {
        assert(blocks[m].0 != blocks[i].0);
        assert(false);
    } else if m > i {
        assert(blocks[i].0 != c);
        assert(false);
    }
}

/// The block named `c` exists and its anchor equals `pos` exactly; the
/// anchor alone is compared, not the footprint.
pub open spec fn spec_wins(s: StateV, c: char, pos: (i32, i32)) -> bool {
    let i = idx_of(s.blocks, c);
    0 <= i < s.blocks.len() && s.blocks[i].1.pos == pos
}

impl Board {
    /// Index of the first block named `c`, if any.
    pub fn find_idx(&self, c: &char) -> (r: Option<usize>)
        ensures
            match r {
                Some(i) => i as int == idx_of(self@.blocks, *c) && i < self@.blocks.len(),
                None => idx_of(self@.blocks, *c) == -1 && !has_name(self@.blocks, *c),
            },
    {
        proof {
            lemma_idx_of(self.state@, *c);
        }
        let mut i: usize = 0;
        while i < self.state.len()
            invariant
                i <= self.state@.len(),
                forall|k: int| 0 <= k < i ==> (#[trigger] self.state@[k]).0 != *c,
            decreases self.state@.len() - i,
        {
            if self.state[i].0 == *c {
                proof {
                    lemma_idx_of(self.state@, *c);
                    assert(self.state@[i as int].0 == *c);
                    assert(has_name(self.state@, *c));
                    let m = idx_of(self.state@, *c);
                    assert(self.state@[m].0 == *c);
                    assert(m >= i);
                    assert(m <= i);
                }
                return Some(i);
            }
            i = i + 1;
        }
        proof {
            if has_name(self.state@, *c) {
                let w = choose|k: int|
                    0 <= k < self.state@.len() && (#[trigger] self.state@[k]).0 == *c;
                assert(false);
            }
        }
        None
    }

    /// True iff the block named `block` exists and its anchored position
    /// equals `pos` (anchor comparison only).
    pub fn wins(&self, block: &char, pos: &(i32, i32)) -> (r: bool)
        ensures
            r == spec_wins(self@, *block, *pos),
    {
        match self.find_idx(block) {
            Some(i) => {
                let b = &self.state[i].1;
                b.pos.0 == pos.0 && b.pos.1 == pos.1
            },
            None => false,
        }
    }
}

/// Copy of a block list.
pub fn copy_state(v: &Vec<(char, Block)>) -> (r: Vec<(char, Block)>)
    ensures
        r@ == v@,
{
    let mut r: Vec<(char, Block)> = Vec::new();
    let mut i: usize = 0;
    while i < v.len()
        invariant
            i <= v@.len(),
            r@ == v@.take(i as int),
        decreases v@.len() - i,
    {
        r.push(v[i]);
        proof {
            assert(v@.take(i + 1) =~= v@.take(i as int).push(v@[i as int]));
        }
        i = i + 1;
    }
    proof {
        assert(v@.take(v@.len() as int) =~= v@);
    }
    r
}

impl Clone for Board {
    /// A clone carries exactly the same size and block list.
    fn clone(&self) -> (r: Self)
        ensures
            r@ == self@,
    {
        Board { size: self.size, state: copy_state(&self.state) }
    }
}

impl PartialEq for Board {
    fn eq(&self, other: &Self) -> (r: bool) {
        if !(self.size.0 == other.size.0 && self.size.1 == other.size.1) {
            return false;
        }
        if self.state.len() != other.state.len() {
            proof {
                assert(self@.blocks.len() != other@.blocks.len());
            }
            return false;
        }
        let mut i: usize = 0;
        while i < self.state.len()
            invariant
                i <= self.state@.len(),
                self.state@.len() == other.state@.len(),
                self.size == other.size,
                forall|k: int| 0 <= k < i ==> self.state@[k] == other.state@[k],
            decreases self.state@.len() - i,
        {
            let a = self.state[i];
            let b = other.state[i];
            if !(a.0 == b.0 && a.1.pos.0 == b.1.pos.0 && a.1.pos.1 == b.1.pos.1
                && a.1.size.0 == b.1.size.0 && a.1.size.1 == b.1.size.1) {
                proof {
                    assert(self.state@[i as int] != other.state@[i as int]);
                }
                return false;
            }
            i = i + 1;
        }
        proof {
            assert(self.state@ =~= other.state@);
            assert(self@ =~= other@);
        }
        true
    }
}

impl Eq for Board {

}

/// Why a configuration is rejected before any search starts.
#[derive(Clone, Copy, PartialEq, Eq, Debug)]
pub enum ConfigError {
    /// Nonpositive board dimensions, a duplicate block identifier, or a
    /// goal identifier that no block carries.
    InvalidConfig,
    /// A block is not a positive rectangle lying fully inside the board.
    OutOfBounds,
    /// Two blocks' footprints intersect.
    Overlap,
}

/// Checks a loaded configuration before any search begins; move generation
/// assumes the invariant this establishes. Each error names the first
/// failing group of checks, in the fixed order: malformed dimensions,
/// duplicate or missing identifiers, bounds, overlap.
pub fn validate(board: &Board, goal_block: &char) -> (r: Result<(), ConfigError>)
    ensures
        r is Ok <==> wf(board@) && has_name(board@.blocks, *goal_block),
        r == Err::<(), ConfigError>(ConfigError::InvalidConfig) <==> !(dims_ok(board@)
            && names_unique(board@.blocks) && has_name(board@.blocks, *goal_block)),
        r == Err::<(), ConfigError>(ConfigError::OutOfBounds) <==> dims_ok(board@)
            && names_unique(board@.blocks) && has_name(board@.blocks, *goal_block) && !blocks_ok(
            board@,
        ),
        r == Err::<(), ConfigError>(ConfigError::Overlap) <==> dims_ok(board@) && names_unique(
            board@.blocks,
        ) && has_name(board@.blocks, *goal_block) && blocks_ok(board@) && !no_overlap(board@),
{
    if !(board.size.0 >= 1 && board.size.1 >= 1) {
        return Err(ConfigError::InvalidConfig);
    }
    let n = board.state.len();
    let mut i: usize = 0;
    while i < n
        invariant
            n == board.state@.len(),
            i <= n,
            forall|a: int, b: int|
                0 <= a < b < n && a < i ==> (#[trigger] board.state@[a]).0 != (
                #[trigger] board.state@[b]).0,
        decreases n - i,
    {
        let mut j: usize = i + 1;
        while j < n
            invariant
                n == board.state@.len(),
                i < n,
                i < j <= n,
                forall|b: int|
                    i < b < j ==> (#[trigger] board.state@[b]).0 != board.state@[i as int].0,
            decreases n - j,
        {
            if board.state[i].0 == board.state[j].0 {
                proof {
                    assert(!names_unique(board@.blocks));
                }
                return Err(ConfigError::InvalidConfig);
            }
            j = j + 1;
        }
        i = i + 1;
    }
    proof {
        assert(names_unique(board@.blocks));
    }
    match board.find_idx(goal_block) {
        None => {
            return Err(ConfigError::InvalidConfig);
        },
        Some(_) => {
            proof {
                lemma_idx_of(board@.blocks, *goal_block);
            }
        },
    }
    let mut i: usize = 0;
    while i < n
        invariant
            n == board.state@.len(),
            dims_ok(board@),
            names_unique(board@.blocks),
            has_name(board@.blocks, *goal_block),
            i <= n,
            forall|k: int|
                0 <= k < i ==> rect_positive(block_rect((#[trigger] board@.blocks[k]).1))
                    && rect_in_board(board@.size, block_rect(board@.blocks[k].1)),
        decreases n - i,
    {
        let b = board.state[i].1;
        if !(b.size.0 >= 1 && b.size.1 >= 1 && b.pos.0 >= 0 && b.pos.1 >= 0 && b.pos.0
            <= board.size.0 - b.size.0 && b.pos.1 <= board.size.1 - b.size.1) {
            proof {
                assert(!(rect_positive(block_rect(board@.blocks[i as int].1)) && rect_in_board(
                    board@.size,
                    block_rect(board@.blocks[i as int].1),
                )));
                assert(!blocks_ok(board@));
            }
            return Err(ConfigError::OutOfBounds);
        }
        proof {
            assert(rect_positive(block_rect(board@.blocks[i as int].1)) && rect_in_board(
                board@.size,
                block_rect(board@.blocks[i as int].1),
            ));
        }
        i = i + 1;
    }
    proof {
        assert(blocks_ok(board@));
    }
    let mut i: usize = 0;
    while i < n
        invariant
            n == board.state@.len(),
            dims_ok(board@),
            names_unique(board@.blocks),
            has_name(board@.blocks, *goal_block),
            blocks_ok(board@),
            i <= n,
            forall|a: int, b: int|
                0 <= a < b < n && a < i ==> !rects_overlap(
                    block_rect((#[trigger] board@.blocks[a]).1),
                    block_rect((#[trigger] board@.blocks[b]).1),
                ),
        decreases n - i,
    {
        let bi = board.state[i].1;
        let mut j: usize = i + 1;
        while j < n
            invariant
                n == board.state@.len(),
                dims_ok(board@),
                names_unique(board@.blocks),
                has_name(board@.blocks, *goal_block),
                blocks_ok(board@),
                i < n,
                i < j <= n,
                bi == board@.blocks[i as int].1,
                forall|b: int|
                    i < b < j ==> !rects_overlap(
                        block_rect(board@.blocks[i as int].1),
                        block_rect((#[trigger] board@.blocks[b]).1),
                    ),
            decreases n - j,
        {
            let bj = board.state[j].1;
            proof {
                assert(rect_positive(block_rect((board@.blocks[i as int]).1)) && rect_in_board(
                    board@.size,
                    block_rect(board@.blocks[i as int].1),
                ));
                assert(rect_positive(block_rect((board@.blocks[j as int]).1)) && rect_in_board(
                    board@.size,
                    block_rect(board@.blocks[j as int].1),
                ));
            }
            if bi.pos.0 < bj.pos.0 + bj.size.0 && bj.pos.0 < bi.pos.0 + bi.size.0 && bi.pos.1
                < bj.pos.1 + bj.size.1 && bj.pos.1 < bi.pos.1 + bi.size.1 {
                proof {
                    assert(rects_overlap(
                        block_rect(board@.blocks[i as int].1),
                        block_rect(board@.blocks[j as int].1),
                    ));
                    assert(!no_overlap(board@));
                }
                return Err(ConfigError::Overlap);
            }
            j = j + 1;
        }
        i = i + 1;
    }
    proof {
        assert(no_overlap(board@));
    }
    Ok(())
}

impl vstd::std_specs::cmp::PartialEqSpecImpl for Board {
    open spec fn obeys_eq_spec() -> bool {
        true
    }

    open spec fn eq_spec(&self, other: &Board) -> bool {
        self@ == other@
    }
}

} // verus!
