use vstd::prelude::*;
use crate::model::{block_rect, idx_of, rect_in_board, rect_positive, wf, Board, Dir, StateV};
use crate::moves::{apply, legal_at, lemma_apply_preserves_wf, replace_at, shift_block, shifted_rect};
use crate::search::{path_end, path_ok};

verus! {

/// What holds of step `j` of a valid path: the named block exists in the
/// state reached so far, the move is legal there, and replaying one more
/// move steps the end state by exactly that move.
pub open spec fn step_ok(s: StateV, ms: Seq<(char, Dir)>, j: int) -> bool {
    let sj = path_end(s, ms.take(j));
    let i = idx_of(sj.blocks, ms[j].0);
    0 <= i < sj.blocks.len() && legal_at(sj, i, ms[j].1) && path_end(s, ms.take(j + 1)) == apply(
        sj,
        i,
        ms[j].1,
    )
}

/// Every step of a valid path from a well-formed state is legal in the
/// state its prefix reaches, and that state is again well-formed.
pub proof fn lemma_path_step(s: StateV, ms: Seq<(char, Dir)>, j: int)
    requires
        wf(s),
        path_ok(s, ms),
        0 <= j < ms.len(),
    ensures
        step_ok(s, ms, j),
        wf(path_end(s, ms.take(j))),
    decreases j,
{
    reveal_with_fuel(path_ok, 3);
    reveal_with_fuel(path_end, 3);
    if j == 0 {
        assert(ms.take(0) =~= Seq::<(char, Dir)>::empty());
        assert(ms.take(1)[0] == ms[0]);
        assert(ms.take(1).drop_first() =~= Seq::<(char, Dir)>::empty());
    } else {
        let i0 = idx_of(s.blocks, ms[0].0);
        let s1 = apply(s, i0, ms[0].1);
        lemma_apply_preserves_wf(s, i0, ms[0].1);
        lemma_path_step(s1, ms.drop_first(), j - 1);
        assert(ms.drop_first().take(j - 1) =~= ms.take(j).drop_first());
        assert(ms.drop_first().take(j) =~= ms.take(j + 1).drop_first());
        assert(ms.take(j)[0] == ms[0]);
        assert(ms.take(j + 1)[0] == ms[0]);
        assert(ms.drop_first()[j - 1] == ms[j]);
    }
}

/// Replays a move list from a starting board, one unit move at a time, and
/// returns the board after each move: exactly the snapshots a presenter
/// prints between the moves.
pub fn print_moves(board: &Board, moves: &Vec<(char, Dir)>) -> (r: Vec<Board>)
    requires
        wf(board@),
        path_ok(board@, moves@),
    ensures
        r@.len() == moves@.len(),
        forall|k: int|
            0 <= k < moves@.len() ==> (#[trigger] r@[k])@ == path_end(board@, moves@.take(k + 1)),
{
    let mut cur: Board = board.clone();
    let mut out: Vec<Board> = Vec::new();
    let mut j: usize = 0;
    proof {
        assert(moves@.take(0) =~= Seq::<(char, Dir)>::empty());
    }
    while j < moves.len()
        invariant
            wf(board@),
            path_ok(board@, moves@),
            j <= moves@.len(),
            cur@ == path_end(board@, moves@.take(j as int)),
            out@.len() == j as int,
            forall|k: int|
                0 <= k < j ==> (#[trigger] out@[k])@ == path_end(board@, moves@.take(k + 1)),
        decreases moves@.len() - j,
    {
        proof {
            lemma_path_step(board@, moves@, j as int);
        }
        let mv: (char, Dir) = moves[j];
        let idxo = cur.find_idx(&mv.0);
        let idx = idxo.unwrap();
        let b = cur.state[idx].1;
        let name = cur.state[idx].0;
        proof {
            assert(legal_at(cur@, idx as int, mv.1));
            assert(rect_in_board(cur@.size, shifted_rect(b, mv.1)));
            assert(rect_positive(block_rect((cur@.blocks[idx as int]).1)));
        }
        let nb = shift_block(b, mv.1);
        let new_state = replace_at(&cur.state, idx, (name, nb));
        let ghost scur = cur@;
        cur = Board { size: cur.size, state: new_state };
        proof {
            assert(cur@.blocks =~= apply(scur, idx as int, mv.1).blocks);
            assert(cur@ =~= apply(scur, idx as int, mv.1));
        }
        out.push(cur.clone());
        j = j + 1;
    }
    out
}

} // verus!
