//! Board-level laws: what the movement rules and the merge scan guarantee,
//! stated over the spec model and proved once and for all.

use vstd::prelude::*;

use crate::merge::cells_adjacent;
use crate::merge::lemma_candidates_ok;
use crate::merge::no_candidates;
use crate::merge::one_pass;
use crate::merge::pair_cands;
use crate::merge::rounds;
use crate::merge::spec_mergeable;
use crate::merge::h_scan;
use crate::merge::h_scan_col;
use crate::merge::v_scan;
use crate::merge::v_scan_col;
use crate::model::Block;
use crate::model::BlockNumber;
use crate::model::Board;
use crate::model::col_obstacle;
use crate::model::first_block_at;
use crate::model::lemma_col_obstacle;
use crate::model::occupied;
use crate::model::seq_in_bounds;
use crate::model::seq_positions_distinct;
use crate::model::spec_next;

verus! {

/// On a well-formed board no two blocks share a cell: the settled blocks sit
/// on pairwise distinct cells, and none of them sits under the one falling
/// block.
pub proof fn lemma_wf_no_shared_cell(b: Board)
    requires
        b.wf(),
    ensures
        forall|i: int, j: int|
            #![trigger b.blocks@[i], b.blocks@[j]]
            0 <= i < j < b.blocks@.len() ==> b.blocks@[i].position != b.blocks@[j].position,
        forall|i: int|
            0 <= i < b.blocks@.len() ==> (#[trigger] b.blocks@[i]).position
                != b.current_block.position,
{
}

/// When the falling block hangs above every settled block of its column,
/// the single topmost-obstacle rule agrees with the plain reading: it may
/// descend exactly when the cell below it is inside the grid and free.
pub proof fn lemma_descend_iff_cell_below_free(b: Board)
    requires
        b.dims_valid(),
        b.blocks_in_bounds(),
        forall|i: int|
            0 <= i < b.blocks@.len() && (#[trigger] b.blocks@[i]).position.x
                == b.current_block.position.x ==> b.current_block.position.y
                < b.blocks@[i].position.y,
    ensures
        b.can_descend() <==> (b.current_block.position.y as int + 1 < b.height as int && !occupied(
            b.blocks@,
            b.current_block.position.x as int,
            b.current_block.position.y as int + 1,
        )),
{
    let cx = b.current_block.position.x;
    let cy = b.current_block.position.y;
    lemma_col_obstacle(b.blocks@, cx as int);
    match col_obstacle(b.blocks@, cx as int) {
        Some(oy) => {
            let wit = choose|i: int|
                0 <= i < b.blocks@.len() && (#[trigger] b.blocks@[i]).position.x as int
                    == cx as int && b.blocks@[i].position.y == oy;
            assert(cy < oy);
            assert(b.blocks@[wit].position.y < b.height);
            if occupied(b.blocks@, cx as int, cy as int + 1) {
                let i = choose|i: int|
                    0 <= i < b.blocks@.len() && (#[trigger] b.blocks@[i]).position.x as int
                        == cx as int && b.blocks@[i].position.y as int == cy as int + 1;
                assert(oy <= b.blocks@[i].position.y);
                assert(!b.can_descend());
            } else {
                assert(oy != cy + 1);
                assert(cy + 1 < oy);
            }
        },
        None => {
            if occupied(b.blocks@, cx as int, cy as int + 1) {
                let i = choose|i: int|
                    0 <= i < b.blocks@.len() && (#[trigger] b.blocks@[i]).position.x as int
                        == cx as int && b.blocks@[i].position.y as int == cy as int + 1;
            }
        },
    }
}

/// A blocked DOWN settles: standing on the floor, or directly above a
/// settled block, the falling block cannot descend, whatever else the
/// column holds.
pub proof fn lemma_blocked_below_settles(b: Board)
    requires
        b.dims_valid(),
        b.blocks_in_bounds(),
        b.current_block.position.y as int == b.height as int - 1 || occupied(
            b.blocks@,
            b.current_block.position.x as int,
            b.current_block.position.y as int + 1,
        ),
    ensures
        !b.can_descend(),
{
    let cx = b.current_block.position.x;
    let cy = b.current_block.position.y;
    lemma_col_obstacle(b.blocks@, cx as int);
    if occupied(b.blocks@, cx as int, cy as int + 1) {
        let i = choose|i: int|
            0 <= i < b.blocks@.len() && (#[trigger] b.blocks@[i]).position.x as int == cx as int
                && b.blocks@[i].position.y as int == cy as int + 1;
        match col_obstacle(b.blocks@, cx as int) {
            Some(oy) => {
                assert(oy <= b.blocks@[i].position.y);
            },
            None => {
                assert(b.blocks@[i].position.x as int != cx as int);
            },
        }
    }
}

/// The maximum value never absorbs: no candidate of any scan has it as its
/// `to` side, so two adjacent blocks holding the two largest values never
/// merge.
pub proof fn lemma_no_merge_into_max(w: int, h: int, blocks: Seq<Block>, i: int)
    requires
        0 <= i < spec_mergeable(w, h, blocks).len(),
    ensures
        spec_next(spec_mergeable(w, h, blocks)[i].to.number) is Some,
        spec_mergeable(w, h, blocks)[i].to.number != BlockNumber::EightyNine,
{
    lemma_candidates_ok(w, h, blocks);
}

/// At a fixed point an `update` pass is the identity, however often it is
/// repeated: running `update` again cannot change the settled blocks.
pub proof fn lemma_fixed_point_stable(w: int, h: int, blocks: Seq<Block>, n: nat)
    requires
        no_candidates(w, h, blocks),
    ensures
        rounds(w, h, blocks, n) == blocks,
    decreases n,
{
    if n > 0 {
        lemma_fixed_point_stable(w, h, blocks, (n - 1) as nat);
        assert(one_pass(w, h, blocks) == blocks);
    }
}

proof fn lemma_first_at_of_distinct(blocks: Seq<Block>, i: int)
    requires
        seq_positions_distinct(blocks),
        0 <= i < blocks.len(),
    ensures
        first_block_at(blocks, blocks[i].position.x as int, blocks[i].position.y as int) == Some(
            blocks[i],
        ),
    decreases blocks.len(),
{
    if i == 0 {
    } else {
        assert(blocks[0].position != blocks[i].position);
        assert(forall|a: int|
            0 <= a < blocks.len() - 1 ==> #[trigger] blocks.drop_first()[a] == blocks[a + 1]);
        lemma_first_at_of_distinct(blocks.drop_first(), i - 1);
    }
}

proof fn lemma_h_scan_col_len(blocks: Seq<Block>, x: int, y: int, n: int)
    requires
        0 <= y < n,
    ensures
        h_scan_col(blocks, x, n).len() >= pair_cands(
            first_block_at(blocks, x, y),
            first_block_at(blocks, x + 1, y),
        ).len(),
    decreases n,
{
    if y < n - 1 {
        lemma_h_scan_col_len(blocks, x, y, n - 1);
    }
}

proof fn lemma_h_scan_len(blocks: Seq<Block>, h: int, x: int, n: int)
    requires
        0 <= x < n,
    ensures
        h_scan(blocks, h, n).len() >= h_scan_col(blocks, x, h).len(),
    decreases n,
{
    if x < n - 1 {
        lemma_h_scan_len(blocks, h, x, n - 1);
    }
}

proof fn lemma_v_scan_col_len(blocks: Seq<Block>, x: int, y: int, n: int)
    requires
        0 <= y < n,
    ensures
        v_scan_col(blocks, x, n).len() >= pair_cands(
            first_block_at(blocks, x, y),
            first_block_at(blocks, x, y + 1),
        ).len(),
    decreases n,
{
    if y < n - 1 {
        lemma_v_scan_col_len(blocks, x, y, n - 1);
    }
}

proof fn lemma_v_scan_len(blocks: Seq<Block>, h: int, x: int, n: int)
    requires
        0 <= x < n,
    ensures
        v_scan(blocks, h, n).len() >= v_scan_col(blocks, x, h - 1).len(),
    decreases n,
{
    if x < n - 1 {
        lemma_v_scan_len(blocks, h, x, n - 1);
    }
}

/// Completeness of the scan at a fixed point: once no candidates remain on a
/// board whose settled blocks sit on distinct in-bounds cells, no two
/// settled blocks on adjacent cells hold consecutive progression values with
/// the larger one still below the maximum. The cascade really is finished.
pub proof fn lemma_fixed_point_no_adjacent_pair(w: int, h: int, blocks: Seq<Block>)
    requires
        no_candidates(w, h, blocks),
        seq_positions_distinct(blocks),
        seq_in_bounds(blocks, w, h),
    ensures
        forall|i: int, j: int|
            #![trigger blocks[i], blocks[j]]
            0 <= i < blocks.len() && 0 <= j < blocks.len() && cells_adjacent(
                blocks[i].position,
                blocks[j].position,
            ) ==> !(spec_next(blocks[i].number) == Some(blocks[j].number) && spec_next(
                blocks[j].number,
            ) is Some),
{
    assert forall|i: int, j: int|
        #![trigger blocks[i], blocks[j]]
        0 <= i < blocks.len() && 0 <= j < blocks.len() && cells_adjacent(
            blocks[i].position,
            blocks[j].position,
        ) implies !(spec_next(blocks[i].number) == Some(blocks[j].number) && spec_next(
        blocks[j].number,
    ) is Some) by {
        if spec_next(blocks[i].number) == Some(blocks[j].number) && spec_next(
            blocks[j].number,
        ) is Some {
            let p = blocks[i].position;
            let q = blocks[j].position;
            lemma_first_at_of_distinct(blocks, i);
            lemma_first_at_of_distinct(blocks, j);
            if p.y == q.y && p.x as int + 1 == q.x as int {
                let pc = pair_cands(
                    first_block_at(blocks, p.x as int, p.y as int),
                    first_block_at(blocks, p.x as int + 1, p.y as int),
                );
                assert(pc.len() >= 1);
                lemma_h_scan_col_len(blocks, p.x as int, p.y as int, h);
                lemma_h_scan_len(blocks, h, p.x as int, w - 1);
            } else if p.y == q.y && q.x as int + 1 == p.x as int {
                let pc = pair_cands(
                    first_block_at(blocks, q.x as int, q.y as int),
                    first_block_at(blocks, q.x as int + 1, q.y as int),
                );
                assert(pc.len() >= 1);
                lemma_h_scan_col_len(blocks, q.x as int, q.y as int, h);
                lemma_h_scan_len(blocks, h, q.x as int, w - 1);
            } else if p.x == q.x && p.y as int + 1 == q.y as int {
                let pc = pair_cands(
                    first_block_at(blocks, p.x as int, p.y as int),
                    first_block_at(blocks, p.x as int, p.y as int + 1),
                );
                assert(pc.len() >= 1);
                lemma_v_scan_col_len(blocks, p.x as int, p.y as int, h - 1);
                lemma_v_scan_len(blocks, h, p.x as int, w);
            } else {
                let pc = pair_cands(
                    first_block_at(blocks, q.x as int, q.y as int),
                    first_block_at(blocks, q.x as int, q.y as int + 1),
                );
                assert(pc.len() >= 1);
                lemma_v_scan_col_len(blocks, q.x as int, q.y as int, h - 1);
                lemma_v_scan_len(blocks, h, q.x as int, w);
            }
            assert(spec_mergeable(w, h, blocks).len() >= 1);
            assert(false);
        }
    }
}

} // verus!
