//! Merge resolution: scanning the settled grid for progression-adjacent
//! neighbours, applying every candidate of a pass, and iterating to a fixed
//! point.

use vstd::prelude::*;

use crate::model::Block;
use crate::model::Board;
use crate::model::MergeableBlocks;
use crate::model::Position;
use crate::model::first_block_at;
use crate::model::lemma_first_block_at;
use crate::model::seq_in_bounds;
use crate::model::seq_positions_distinct;
use crate::model::spec_next;

verus! {

/// The candidates one ordered cell pair yields. `l` sits at the cell with
/// the smaller coordinate, `r` at its right or lower neighbour; either block
/// may absorb the other, so both directions are checked, each requiring the
/// target to still have a successor.
pub open spec fn pair_cands(l: Option<Block>, r: Option<Block>) -> Seq<MergeableBlocks> {
    match (l, r) {
        (Some(a), Some(b)) => {
            let ab: Seq<MergeableBlocks> = if spec_next(a.number) == Some(b.number) && spec_next(
                b.number,
            ) is Some {
                seq![MergeableBlocks { from: a, to: b }]
            } else {
                Seq::empty()
            };
            let ba: Seq<MergeableBlocks> = if spec_next(b.number) == Some(a.number) && spec_next(
                a.number,
            ) is Some {
                seq![MergeableBlocks { from: b, to: a }]
            } else {
                Seq::empty()
            };
            ab + ba
        },
        _ => Seq::empty(),
    }
}

/// Candidates of the horizontal pair `(x, y)`-`(x+1, y)` for all `y` in
/// `[0, n)`, in scan order.
pub open spec fn h_scan_col(blocks: Seq<Block>, x: int, n: int) -> Seq<MergeableBlocks>
    decreases n,
{
    if n <= 0 {
        Seq::empty()
    } else {
        h_scan_col(blocks, x, n - 1) + pair_cands(
            first_block_at(blocks, x, n - 1),
            first_block_at(blocks, x + 1, n - 1),
        )
    }
}

/// Horizontal candidates for all columns `x` in `[0, n)`, each scanned over
/// `h` rows, in scan order.
pub open spec fn h_scan(blocks: Seq<Block>, h: int, n: int) -> Seq<MergeableBlocks>
    decreases n,
{
    if n <= 0 {
        Seq::empty()
    } else {
        h_scan(blocks, h, n - 1) + h_scan_col(blocks, n - 1, h)
    }
}

/// Candidates of the vertical pair `(x, y)`-`(x, y+1)` for all `y` in
/// `[0, n)`, in scan order.
pub open spec fn v_scan_col(blocks: Seq<Block>, x: int, n: int) -> Seq<MergeableBlocks>
    decreases n,
{
    if n <= 0 {
        Seq::empty()
    } else {
        v_scan_col(blocks, x, n - 1) + pair_cands(
            first_block_at(blocks, x, n - 1),
            first_block_at(blocks, x, n),
        )
    }
}

/// Vertical candidates for all columns `x` in `[0, n)`, each scanned over
/// `h - 1` row pairs, in scan order.
pub open spec fn v_scan(blocks: Seq<Block>, h: int, n: int) -> Seq<MergeableBlocks>
    decreases n,
{
    if n <= 0 {
        Seq::empty()
    } else {
        v_scan(blocks, h, n - 1) + v_scan_col(blocks, n - 1, h - 1)
    }
}

/// Every merge candidate one scan of a `w` by `h` grid finds: all horizontal
/// pairs first, then all vertical pairs, exactly in scan order.
pub open spec fn spec_mergeable(w: int, h: int, blocks: Seq<Block>) -> Seq<MergeableBlocks> {
    h_scan(blocks, h, w - 1) + v_scan(blocks, h, w)
}

/// The scan finds nothing: the board is at a merge fixed point.
pub open spec fn no_candidates(w: int, h: int, blocks: Seq<Block>) -> bool {
    spec_mergeable(w, h, blocks).len() == 0
}

/// `blocks` with every copy of `from` and of `to` removed, keeping order.
pub open spec fn spec_retain(blocks: Seq<Block>, from: Block, to: Block) -> Seq<Block>
    decreases blocks.len(),
{
    if blocks.len() == 0 {
        Seq::empty()
    } else {
        let rest = spec_retain(blocks.drop_last(), from, to);
        if blocks.last() != from && blocks.last() != to {
            rest.push(blocks.last())
        } else {
            rest
        }
    }
}

/// The block a merge leaves behind: the successor value at the target's cell.
pub open spec fn merged_block(m: MergeableBlocks) -> Block {
    Block {
        number: match spec_next(m.to.number) {
            Some(v) => v,
            None => m.to.number,
        },
        position: m.to.position,
    }
}

/// One merge applied to the settled blocks: both sides leave, the merged
/// block is appended.
pub open spec fn apply_merge(blocks: Seq<Block>, m: MergeableBlocks) -> Seq<Block> {
    spec_retain(blocks, m.from, m.to).push(merged_block(m))
}

/// The candidates `ms` applied in order, each to the state the previous ones
/// left.
pub open spec fn apply_candidates(blocks: Seq<Block>, ms: Seq<MergeableBlocks>) -> Seq<Block>
    decreases ms.len(),
{
    if ms.len() == 0 {
        blocks
    } else {
        apply_merge(apply_candidates(blocks, ms.drop_last()), ms.last())
    }
}

/// One full pass: collect every candidate of the scan, then apply them all.
pub open spec fn one_pass(w: int, h: int, blocks: Seq<Block>) -> Seq<Block> {
    apply_candidates(blocks, spec_mergeable(w, h, blocks))
}

/// `n` passes, each over the state the previous one left.
pub open spec fn rounds(w: int, h: int, blocks: Seq<Block>, n: nat) -> Seq<Block>
    decreases n,
{
    if n == 0 {
        blocks
    } else {
        one_pass(w, h, rounds(w, h, blocks, (n - 1) as nat))
    }
}

/// The most passes one `update` call will run. Reaching it would take
/// centuries of passes; it exists because the pass iteration has no known
/// termination proof.
pub open spec fn pass_budget() -> nat {
    u64::MAX as nat
}

/// Two cells share an edge of the grid.
pub open spec fn cells_adjacent(p: Position, q: Position) -> bool {
    ||| (p.y == q.y && (p.x as int + 1 == q.x as int || q.x as int + 1 == p.x as int))
    ||| (p.x == q.x && (p.y as int + 1 == q.y as int || q.y as int + 1 == p.y as int))
}

/// What holds of every candidate a scan of `blocks` yields: both sides are
/// settled blocks on adjacent cells, the absorbed value is the immediate
/// predecessor of the target's, and the target still has a successor.
pub open spec fn candidate_ok(blocks: Seq<Block>, m: MergeableBlocks) -> bool {
    &&& blocks.contains(m.from)
    &&& blocks.contains(m.to)
    &&& spec_next(m.from.number) == Some(m.to.number)
    &&& spec_next(m.to.number) is Some
    &&& cells_adjacent(m.from.position, m.to.position)
}

/// `candidate_ok` holds of every entry of `ms`.
pub open spec fn all_candidates_ok(blocks: Seq<Block>, ms: Seq<MergeableBlocks>) -> bool {
    forall|i: int| 0 <= i < ms.len() ==> candidate_ok(blocks, #[trigger] ms[i])
}

proof fn lemma_all_ok_concat(blocks: Seq<Block>, a: Seq<MergeableBlocks>, b: Seq<MergeableBlocks>)
    requires
        all_candidates_ok(blocks, a),
        all_candidates_ok(blocks, b),
    ensures
        all_candidates_ok(blocks, a + b),
{
    assert forall|i: int| 0 <= i < (a + b).len() implies candidate_ok(blocks, #[trigger] (a
        + b)[i]) by {
        if i < a.len() {
            assert((a + b)[i] == a[i]);
        } else {
            assert((a + b)[i] == b[i - a.len()]);
        }
    }
}

proof fn lemma_pair_cands_ok(blocks: Seq<Block>, x1: int, y1: int, x2: int, y2: int)
    requires
        (x2 == x1 + 1 && y2 == y1) || (x2 == x1 && y2 == y1 + 1),
    ensures
        all_candidates_ok(
            blocks,
            pair_cands(first_block_at(blocks, x1, y1), first_block_at(blocks, x2, y2)),
        ),
{
    lemma_first_block_at(blocks, x1, y1);
    lemma_first_block_at(blocks, x2, y2);
    let cs = pair_cands(first_block_at(blocks, x1, y1), first_block_at(blocks, x2, y2));
    assert forall|i: int| 0 <= i < cs.len() implies candidate_ok(blocks, #[trigger] cs[i]) by {
        let a = first_block_at(blocks, x1, y1)->Some_0;
        let b = first_block_at(blocks, x2, y2)->Some_0;
        assert(cs[i].from == a || cs[i].from == b);
    }
}

proof fn lemma_h_scan_col_ok(blocks: Seq<Block>, x: int, n: int)
    ensures
        all_candidates_ok(blocks, h_scan_col(blocks, x, n)),
    decreases n,
{
    if n > 0 {
        lemma_h_scan_col_ok(blocks, x, n - 1);
        lemma_pair_cands_ok(blocks, x, n - 1, x + 1, n - 1);
        lemma_all_ok_concat(
            blocks,
            h_scan_col(blocks, x, n - 1),
            pair_cands(first_block_at(blocks, x, n - 1), first_block_at(blocks, x + 1, n - 1)),
        );
    }
}

proof fn lemma_h_scan_ok(blocks: Seq<Block>, h: int, n: int)
    ensures
        all_candidates_ok(blocks, h_scan(blocks, h, n)),
    decreases n,
{
    if n > 0 {
        lemma_h_scan_ok(blocks, h, n - 1);
        lemma_h_scan_col_ok(blocks, n - 1, h);
        lemma_all_ok_concat(blocks, h_scan(blocks, h, n - 1), h_scan_col(blocks, n - 1, h));
    }
}

proof fn lemma_v_scan_col_ok(blocks: Seq<Block>, x: int, n: int)
    ensures
        all_candidates_ok(blocks, v_scan_col(blocks, x, n)),
    decreases n,
{
    if n > 0 {
        lemma_v_scan_col_ok(blocks, x, n - 1);
        lemma_pair_cands_ok(blocks, x, n - 1, x, n);
        lemma_all_ok_concat(
            blocks,
            v_scan_col(blocks, x, n - 1),
            pair_cands(first_block_at(blocks, x, n - 1), first_block_at(blocks, x, n)),
        );
    }
}

proof fn lemma_v_scan_ok(blocks: Seq<Block>, h: int, n: int)
    ensures
        all_candidates_ok(blocks, v_scan(blocks, h, n)),
    decreases n,
{
    if n > 0 {
        lemma_v_scan_ok(blocks, h, n - 1);
        lemma_v_scan_col_ok(blocks, n - 1, h - 1);
        lemma_all_ok_concat(blocks, v_scan(blocks, h, n - 1), v_scan_col(blocks, n - 1, h - 1));
    }
}

/// Soundness of the scan: every candidate it yields relates two settled
/// blocks on adjacent cells whose values are consecutive in the progression,
/// and whose target is below the maximum value.
pub proof fn lemma_candidates_ok(w: int, h: int, blocks: Seq<Block>)
    ensures
        all_candidates_ok(blocks, spec_mergeable(w, h, blocks)),
{
    lemma_h_scan_ok(blocks, h, w - 1);
    lemma_v_scan_ok(blocks, h, w);
    lemma_all_ok_concat(blocks, h_scan(blocks, h, w - 1), v_scan(blocks, h, w));
}

/// Everything `spec_retain` keeps comes from the input and is neither of the
/// removed blocks.
pub proof fn lemma_retain_membership(blocks: Seq<Block>, from: Block, to: Block)
    ensures
        forall|i: int|
            0 <= i < spec_retain(blocks, from, to).len() ==> blocks.contains(
                #[trigger] spec_retain(blocks, from, to)[i],
            ) && spec_retain(blocks, from, to)[i] != from && spec_retain(blocks, from, to)[i] != to,
    decreases blocks.len(),
{
    if blocks.len() > 0 {
        lemma_retain_membership(blocks.drop_last(), from, to);
        let rest = spec_retain(blocks.drop_last(), from, to);
        assert forall|i: int| 0 <= i < spec_retain(blocks, from, to).len() implies blocks.contains(
            #[trigger] spec_retain(blocks, from, to)[i],
        ) && spec_retain(blocks, from, to)[i] != from && spec_retain(blocks, from, to)[i]
            != to by {
            if i < rest.len() {
                assert(blocks.drop_last().contains(rest[i]));
                let k = choose|k: int|
                    0 <= k < blocks.drop_last().len() && blocks.drop_last()[k] == rest[i];
                assert(blocks[k] == rest[i]);
            } else {
                assert(spec_retain(blocks, from, to)[i] == blocks.last());
                assert(blocks.contains(blocks.last()));
            }
        }
    }
}

/// `spec_retain` keeps cells distinct when they were distinct.
pub proof fn lemma_retain_distinct(blocks: Seq<Block>, from: Block, to: Block)
    requires
        seq_positions_distinct(blocks),
    ensures
        seq_positions_distinct(spec_retain(blocks, from, to)),
    decreases blocks.len(),
{
    if blocks.len() > 0 {
        assert(forall|i: int|
            0 <= i < blocks.len() - 1 ==> #[trigger] blocks.drop_last()[i] == blocks[i]);
        lemma_retain_distinct(blocks.drop_last(), from, to);
        lemma_retain_membership(blocks.drop_last(), from, to);
        let rest = spec_retain(blocks.drop_last(), from, to);
        let kept = spec_retain(blocks, from, to);
        if blocks.last() != from && blocks.last() != to {
            assert forall|i: int, j: int|
                #![trigger kept[i], kept[j]]
                0 <= i < j < kept.len() implies kept[i].position != kept[j].position by {
                if j < rest.len() {
                    assert(rest[i].position != rest[j].position);
                } else {
                    assert(kept[j] == blocks.last());
                    assert(blocks.drop_last().contains(rest[i]));
                    let k = choose|k: int|
                        0 <= k < blocks.drop_last().len() && blocks.drop_last()[k] == rest[i];
                    assert(blocks[k].position != blocks[blocks.len() - 1].position);
                }
            }
        }
    }
}

impl Board {
    /// One full scan of the settled grid, in scan order: every horizontal
    /// cell pair column by column, then every vertical pair. Each entry
    /// records a merge whose target still has a successor value.
    pub fn mergeable_blocks(&self) -> (r: Vec<MergeableBlocks>)
        requires
            self.dims_valid(),
        ensures
            r@ == spec_mergeable(self.width as int, self.height as int, self.blocks@),
    {
        let w = self.width;
        let h = self.height;
        let mut result: Vec<MergeableBlocks> = Vec::new();
        let mut x: u32 = 0;
        while x < w - 1
            invariant
                w == self.width,
                h == self.height,
                self.dims_valid(),
                x <= w - 1,
                result@ == h_scan(self.blocks@, h as int, x as int),
            decreases w - 1 - x,
        {
            let mut y: u32 = 0;
            while y < h
                invariant
                    w == self.width,
                    h == self.height,
                    self.dims_valid(),
                    x < w - 1,
                    y <= h,
                    result@ == h_scan(self.blocks@, h as int, x as int) + h_scan_col(
                        self.blocks@,
                        x as int,
                        y as int,
                    ),
                decreases h - y,
            {
                let l_opt = self.block_at(x, y);
                let r_opt = self.block_at(x + 1, y);
                let ghost prev = result@;
                if let Some(left_block) = l_opt {
                    if let Some(right_block) = r_opt {
                        let ln = left_block.number.next();
                        let rn = right_block.number.next();
                        let cond1: bool = (match ln {
                            Some(n) => n == right_block.number,
                            None => false,
                        }) && rn.is_some();
                        if cond1 {
                            result.push(MergeableBlocks { from: left_block, to: right_block });
                        }
                        let cond2: bool = (match rn {
                            Some(n) => n == left_block.number,
                            None => false,
                        }) && ln.is_some();
                        if cond2 {
                            result.push(MergeableBlocks { from: right_block, to: left_block });
                        }
                    }
                }
                proof {
                    assert(result@ =~= prev + pair_cands(l_opt, r_opt));
                    assert(result@ =~= h_scan(self.blocks@, h as int, x as int) + h_scan_col(
                        self.blocks@,
                        x as int,
                        y as int + 1,
                    ));
                }
                y = y + 1;
            }
            proof {
                assert(result@ =~= h_scan(self.blocks@, h as int, x as int + 1));
            }
            x = x + 1;
        }
        proof {
            assert(result@ =~= h_scan(self.blocks@, h as int, w as int - 1));
        }
        let mut x2: u32 = 0;
        while x2 < w
            invariant
                w == self.width,
                h == self.height,
                self.dims_valid(),
                x2 <= w,
                result@ == h_scan(self.blocks@, h as int, w as int - 1) + v_scan(
                    self.blocks@,
                    h as int,
                    x2 as int,
                ),
            decreases w - x2,
        {
            let mut y2: u32 = 0;
            while y2 < h - 1
                invariant
                    w == self.width,
                    h == self.height,
                    self.dims_valid(),
                    x2 < w,
                    y2 <= h - 1,
                    result@ == h_scan(self.blocks@, h as int, w as int - 1) + v_scan(
                        self.blocks@,
                        h as int,
                        x2 as int,
                    ) + v_scan_col(self.blocks@, x2 as int, y2 as int),
                decreases h - 1 - y2,
            {
                let l_opt = self.block_at(x2, y2);
                let r_opt = self.block_at(x2, y2 + 1);
                let ghost prev = result@;
                if let Some(upper_block) = l_opt {
                    if let Some(lower_block) = r_opt {
                        let un = upper_block.number.next();
                        let dn = lower_block.number.next();
                        let cond1: bool = (match un {
                            Some(n) => n == lower_block.number,
                            None => false,
                        }) && dn.is_some();
                        if cond1 {
                            result.push(MergeableBlocks { from: upper_block, to: lower_block });
                        }
                        let cond2: bool = (match dn {
                            Some(n) => n == upper_block.number,
                            None => false,
                        }) && un.is_some();
                        if cond2 {
                            result.push(MergeableBlocks { from: lower_block, to: upper_block });
                        }
                    }
                }
                proof {
                    assert(result@ =~= prev + pair_cands(l_opt, r_opt));
                    assert(result@ =~= h_scan(self.blocks@, h as int, w as int - 1) + v_scan(
                        self.blocks@,
                        h as int,
                        x2 as int,
                    ) + v_scan_col(self.blocks@, x2 as int, y2 as int + 1));
                }
                y2 = y2 + 1;
            }
            proof {
                assert(result@ =~= h_scan(self.blocks@, h as int, w as int - 1) + v_scan(
                    self.blocks@,
                    h as int,
                    x2 as int + 1,
                ));
            }
            x2 = x2 + 1;
        }
        proof {
            assert(result@ =~= spec_mergeable(self.width as int, self.height as int, self.blocks@));
        }
        result
    }

    /// Apply one merge: remove every settled block equal to either side of
    /// the candidate and append the merged block at the target's cell. With
    /// a well-formed board whose settled blocks really hold both sides, the
    /// board invariant is preserved.
    pub fn merge_blocks(&mut self, mergeable_blocks: MergeableBlocks)
        requires
            spec_next(mergeable_blocks.to.number) is Some,
        ensures
            final(self).width == old(self).width,
            final(self).height == old(self).height,
            final(self).current_block == old(self).current_block,
            final(self).blocks@ == apply_merge(old(self).blocks@, mergeable_blocks),
            old(self).wf() && old(self).blocks@.contains(mergeable_blocks.from) && old(
                self,
            ).blocks@.contains(mergeable_blocks.to) ==> final(self).wf(),
    {
        let from = mergeable_blocks.from;
        let to = mergeable_blocks.to;
        let mut kept: Vec<Block> = Vec::new();
        let n: usize = self.blocks.len();
        let mut i: usize = 0;
        while i < n
            invariant
                *self == *old(self),
                n == self.blocks@.len(),
                0 <= i <= n,
                from == mergeable_blocks.from,
                to == mergeable_blocks.to,
                kept@ == spec_retain(self.blocks@.take(i as int), from, to),
            decreases n - i,
        {
            let b = self.blocks[i];
            proof {
                assert(self.blocks@.take(i as int + 1).drop_last() =~= self.blocks@.take(i as int));
                assert(self.blocks@.take(i as int + 1).last() == b);
            }
            if b != from && b != to {
                kept.push(b);
            }
            i = i + 1;
        }
        proof {
            assert(self.blocks@.take(n as int) =~= self.blocks@);
        }
        let next_number = mergeable_blocks.to.number.next().unwrap();
        kept.push(Block { number: next_number, position: to.position });
        self.blocks = kept;
        proof {
            self.lemma_merge_wf(*old(self), mergeable_blocks);
        }
    }

    /// The invariant-preservation argument behind `merge_blocks`: removing
    /// both sides and appending the merged block at the target's cell keeps
    /// cells distinct, in bounds, and clear of the falling block.
    proof fn lemma_merge_wf(&self, pre: Board, m: MergeableBlocks)
        requires
            self.width == pre.width,
            self.height == pre.height,
            self.current_block == pre.current_block,
            self.blocks@ == apply_merge(pre.blocks@, m),
        ensures
            pre.wf() && pre.blocks@.contains(m.from) && pre.blocks@.contains(m.to) ==> self.wf(),
    {
        if !(pre.wf() && pre.blocks@.contains(m.from) && pre.blocks@.contains(m.to)) {
            return;
        }
        lemma_retain_membership(pre.blocks@, m.from, m.to);
        lemma_retain_distinct(pre.blocks@, m.from, m.to);
        let kept = spec_retain(pre.blocks@, m.from, m.to);
        let to_idx = choose|k: int| 0 <= k < pre.blocks@.len() && pre.blocks@[k] == m.to;
        assert(pre.block_in_bounds(pre.blocks@[to_idx]));
        assert forall|i: int| 0 <= i < kept.len() implies (#[trigger] kept[i]).position
            != m.to.position by {
            let k = choose|k: int| 0 <= k < pre.blocks@.len() && pre.blocks@[k] == kept[i];
            if k != to_idx {
                assert(pre.blocks@[k].position != pre.blocks@[to_idx].position);
            }
        }
        assert forall|i: int| 0 <= i < self.blocks@.len() implies self.block_in_bounds(
            #[trigger] self.blocks@[i],
        ) by {
            if i < kept.len() {
                let k = choose|k: int| 0 <= k < pre.blocks@.len() && pre.blocks@[k] == kept[i];
                assert(pre.block_in_bounds(pre.blocks@[k]));
            } else {
                assert(self.blocks@[i] == merged_block(m));
            }
        }
        assert forall|i: int, j: int|
            #![trigger self.blocks@[i], self.blocks@[j]]
            0 <= i < j < self.blocks@.len() implies self.blocks@[i].position
            != self.blocks@[j].position by {
            if j < kept.len() {
                assert(kept[i].position != kept[j].position);
            } else {
                assert(self.blocks@[j] == merged_block(m));
                assert(kept[i].position != m.to.position);
            }
        }
        assert forall|i: int| 0 <= i < self.blocks@.len() implies (
        #[trigger] self.blocks@[i]).position != self.current_block.position by {
            if i < kept.len() {
                let k = choose|k: int| 0 <= k < pre.blocks@.len() && pre.blocks@[k] == kept[i];
                assert(pre.blocks@[k].position != pre.current_block.position);
            } else {
                assert(pre.blocks@[to_idx].position != pre.current_block.position);
            }
        }
    }

    /// Resolve merges to a fixed point: scan, apply every candidate of the
    /// pass, and repeat while the scan still finds candidates, up to the pass
    /// budget. The settled blocks end exactly where the pass iteration ends;
    /// a board already at a fixed point is left unchanged.
    pub fn update(&mut self)
        requires
            old(self).dims_valid(),
        ensures
            final(self).width == old(self).width,
            final(self).height == old(self).height,
            final(self).current_block == old(self).current_block,
            exists|n: nat|
                {
                    &&& final(self).blocks@ == #[trigger] rounds(
                        old(self).width as int,
                        old(self).height as int,
                        old(self).blocks@,
                        n,
                    )
                    &&& (no_candidates(
                        old(self).width as int,
                        old(self).height as int,
                        final(self).blocks@,
                    ) || n == pass_budget())
                    &&& forall|m: nat|
                        m < n ==> !no_candidates(
                            old(self).width as int,
                            old(self).height as int,
                            #[trigger] rounds(
                                old(self).width as int,
                                old(self).height as int,
                                old(self).blocks@,
                                m,
                            ),
                        )
                },
            no_candidates(old(self).width as int, old(self).height as int, old(self).blocks@)
                ==> final(self).blocks@ == old(self).blocks@,
            seq_in_bounds(old(self).blocks@, old(self).width as int, old(self).height as int)
                ==> seq_in_bounds(
                final(self).blocks@,
                old(self).width as int,
                old(self).height as int,
            ),
    {
        let ghost b0: Seq<Block> = self.blocks@;
        let ghost w: int = self.width as int;
        let ghost h: int = self.height as int;
        let ghost pre: Board = *self;
        let mut fuel: u64 = u64::MAX;
        let ghost mut k: nat = 0;
        let mut ms: Vec<MergeableBlocks> = self.mergeable_blocks();
        while ms.len() != 0 && fuel != 0
            invariant
                self.width == pre.width,
                self.height == pre.height,
                self.current_block == pre.current_block,
                pre.dims_valid(),
                w == pre.width as int,
                h == pre.height as int,
                b0 == pre.blocks@,
                ms@ == spec_mergeable(w, h, self.blocks@),
                self.blocks@ == rounds(w, h, b0, k),
                forall|m: nat| m < k ==> !no_candidates(w, h, #[trigger] rounds(w, h, b0, m)),
                k + fuel as nat == pass_budget(),
                seq_in_bounds(b0, w, h) ==> seq_in_bounds(self.blocks@, w, h),
            decreases fuel,
        {
            let ghost snap: Seq<Block> = self.blocks@;
            proof {
                lemma_candidates_ok(w, h, snap);
            }
            let n: usize = ms.len();
            let mut i: usize = 0;
            while i < n
                invariant
                    n == ms@.len(),
                    0 <= i <= n,
                    all_candidates_ok(snap, ms@),
                    self.blocks@ == apply_candidates(snap, ms@.take(i as int)),
                    self.width == pre.width,
                    self.height == pre.height,
                    self.current_block == pre.current_block,
                    w == pre.width as int,
                    h == pre.height as int,
                    seq_in_bounds(snap, w, h) ==> seq_in_bounds(self.blocks@, w, h),
                decreases n - i,
            {
                let m = ms[i];
                proof {
                    assert(candidate_ok(snap, ms@[i as int]));
                }
                let ghost before: Seq<Block> = self.blocks@;
                self.merge_blocks(m);
                proof {
                    assert(ms@.take(i as int + 1).drop_last() =~= ms@.take(i as int));
                    assert(ms@.take(i as int + 1).last() == m);
                    if seq_in_bounds(snap, w, h) {
                        lemma_retain_membership(before, m.from, m.to);
                        let to_idx = choose|t: int| 0 <= t < snap.len() && snap[t] == m.to;
                        assert(snap[to_idx].position.x < w && snap[to_idx].position.y < h);
                        assert forall|q: int| 0 <= q < self.blocks@.len() implies (
                        #[trigger] self.blocks@[q]).position.x < w && self.blocks@[q].position.y
                            < h by {
                            let kept = spec_retain(before, m.from, m.to);
                            if q < kept.len() {
                                let c = choose|c: int| 0 <= c < before.len() && before[c] == kept[q];
                                assert(before[c].position.x < w && before[c].position.y < h);
                            } else {
                                assert(self.blocks@[q] == merged_block(m));
                            }
                        }
                    }
                }
                i = i + 1;
            }
            proof {
                assert(ms@.take(n as int) =~= ms@);
                assert(self.blocks@ == one_pass(w, h, snap));
                assert(rounds(w, h, b0, k + 1) == one_pass(w, h, rounds(w, h, b0, k)));
                k = k + 1;
            }
            fuel = fuel - 1;
            ms = self.mergeable_blocks();
        }
        proof {
            assert(self.blocks@ == rounds(w, h, b0, k));
            if ms@.len() == 0 {
                assert(no_candidates(w, h, self.blocks@));
            } else {
                assert(fuel == 0);
                assert(k == pass_budget());
            }
            if no_candidates(w, h, b0) {
                assert(rounds(w, h, b0, 0) == b0);
                assert(forall|m: nat| m < k ==> !no_candidates(w, h, #[trigger] rounds(w, h, b0, m)));
                if k != 0 {
                    assert(!no_candidates(w, h, rounds(w, h, b0, 0)));
                }
            }
        }
    }
}

} // verus!
