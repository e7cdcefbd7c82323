//! Core board state for the falling-block merge puzzle: block values along a
//! Fibonacci-style progression, grid positions, the falling piece, and the
//! movement and settling rules.

use vstd::prelude::*;

verus! {

/// The fixed progression of block values. Each value has at most one
/// successor; the largest value has none.
#[derive(Copy, Clone, PartialEq, Eq, Structural, Debug)]
pub enum BlockNumber {
    One,
    Two,
    Three,
    Five,
    Eight,
    Thirteen,
    TwentyOne,
    ThrityFour,
    FiftyFive,
    EightyNine,
}

/// The numeric magnitude of a block value.
pub open spec fn spec_value(n: BlockNumber) -> u32 {
    match n {
        BlockNumber::One => 1,
        BlockNumber::Two => 2,
        BlockNumber::Three => 3,
        BlockNumber::Five => 5,
        BlockNumber::Eight => 8,
        BlockNumber::Thirteen => 13,
        BlockNumber::TwentyOne => 21,
        BlockNumber::ThrityFour => 34,
        BlockNumber::FiftyFive => 55,
        BlockNumber::EightyNine => 89,
    }
}

/// The immediate successor of a value in the progression, if any.
pub open spec fn spec_next(n: BlockNumber) -> Option<BlockNumber> {
    match n {
        BlockNumber::One => Some(BlockNumber::Two),
        BlockNumber::Two => Some(BlockNumber::Three),
        BlockNumber::Three => Some(BlockNumber::Five),
        BlockNumber::Five => Some(BlockNumber::Eight),
        BlockNumber::Eight => Some(BlockNumber::Thirteen),
        BlockNumber::Thirteen => Some(BlockNumber::TwentyOne),
        BlockNumber::TwentyOne => Some(BlockNumber::ThrityFour),
        BlockNumber::ThrityFour => Some(BlockNumber::FiftyFive),
        BlockNumber::FiftyFive => Some(BlockNumber::EightyNine),
        BlockNumber::EightyNine => None,
    }
}

impl BlockNumber {
    pub fn to_u32(self) -> (r: u32)
        ensures
            r == spec_value(self),
    {
        match self {
            BlockNumber::One => 1,
            BlockNumber::Two => 2,
            BlockNumber::Three => 3,
            BlockNumber::Five => 5,
            BlockNumber::Eight => 8,
            BlockNumber::Thirteen => 13,
            BlockNumber::TwentyOne => 21,
            BlockNumber::ThrityFour => 34,
            BlockNumber::FiftyFive => 55,
            BlockNumber::EightyNine => 89,
        }
    }

    pub fn next(self) -> (r: Option<BlockNumber>)
        ensures
            r == spec_next(self),
    {
        match self {
            BlockNumber::One => Some(BlockNumber::Two),
            BlockNumber::Two => Some(BlockNumber::Three),
            BlockNumber::Three => Some(BlockNumber::Five),
            BlockNumber::Five => Some(BlockNumber::Eight),
            BlockNumber::Eight => Some(BlockNumber::Thirteen),
            BlockNumber::Thirteen => Some(BlockNumber::TwentyOne),
            BlockNumber::TwentyOne => Some(BlockNumber::ThrityFour),
            BlockNumber::ThrityFour => Some(BlockNumber::FiftyFive),
            BlockNumber::FiftyFive => Some(BlockNumber::EightyNine),
            BlockNumber::EightyNine => None,
        }
    }
}

/// A grid cell. The origin is the top-left corner; `y` grows toward the floor.
#[derive(Copy, Clone, PartialEq, Eq, Structural, Debug)]
pub struct Position {
    pub x: u32,
    pub y: u32,
}

impl Position {
    pub fn new(x: u32, y: u32) -> (r: Self)
        ensures
            r == (Position { x, y }),
    {
        Self { x, y }
    }
}

/// A value sitting at a cell, either falling or settled.
#[derive(Copy, Clone, PartialEq, Eq, Structural, Debug)]
pub struct Block {
    pub number: BlockNumber,
    pub position: Position,
}

impl Block {
    pub fn new(number: BlockNumber, x: u32, y: u32) -> (r: Self)
        ensures
            r == (Block { number, position: Position { x, y } }),
    {
        Self { number, position: Position::new(x, y) }
    }
}

/// One merge found by a scan: `from` is absorbed into `to`, which holds the
/// predecessor of the merged value.
#[derive(Copy, Clone, PartialEq, Eq, Structural, Debug)]
pub struct MergeableBlocks {
    pub from: Block,
    pub to: Block,
}

/// A direction the player can steer the falling block.
#[derive(Copy, Clone, PartialEq, Eq, Structural, Debug)]
pub enum Direction {
    LEFT,
    RIGHT,
    DOWN,
}

/// The board: fixed dimensions, one falling block, and the settled blocks.
pub struct Board {
    pub width: u32,
    pub height: u32,
    pub current_block: Block,
    pub blocks: Vec<Block>,
}

/// Every block of `s` lies inside a `w` by `h` grid.
pub open spec fn seq_in_bounds(s: Seq<Block>, w: int, h: int) -> bool {
    forall|i: int|
        0 <= i < s.len() ==> (#[trigger] s[i]).position.x < w && s[i].position.y < h
}

/// No two blocks of `s` share a cell.
pub open spec fn seq_positions_distinct(s: Seq<Block>) -> bool {
    forall|i: int, j: int|
        #![trigger s[i], s[j]]
        0 <= i < j < s.len() ==> s[i].position != s[j].position
}

/// Whether some block of `blocks` sits at cell `(x, y)`.
pub open spec fn occupied(blocks: Seq<Block>, x: int, y: int) -> bool {
    exists|i: int|
        0 <= i < blocks.len() && (#[trigger] blocks[i]).position.x as int == x
            && blocks[i].position.y as int == y
}

/// The first block of `blocks` (in sequence order) at cell `(x, y)`, if any.
pub open spec fn first_block_at(blocks: Seq<Block>, x: int, y: int) -> Option<Block>
    decreases blocks.len(),
{
    if blocks.len() == 0 {
        None
    } else if blocks[0].position.x as int == x && blocks[0].position.y as int == y {
        Some(blocks[0])
    } else {
        first_block_at(blocks.drop_first(), x, y)
    }
}

/// The least `y` among blocks of column `x`: the topmost obstacle of that
/// column, if the column holds any block.
pub open spec fn col_obstacle(blocks: Seq<Block>, x: int) -> Option<u32>
    decreases blocks.len(),
{
    if blocks.len() == 0 {
        None
    } else {
        let rest = col_obstacle(blocks.drop_last(), x);
        let b = blocks.last();
        if b.position.x as int == x {
            match rest {
                None => Some(b.position.y),
                Some(m) => Some(if b.position.y < m { b.position.y } else { m }),
            }
        } else {
            rest
        }
    }
}

/// Whether `b` is a freshly spawned falling block for a board of this width:
/// centered on the top row, holding one of the two lowest values.
pub open spec fn is_spawn_block(b: Block, width: u32) -> bool {
    &&& b.position.x as int == (width as int - 1) / 2
    &&& b.position.y == 0
    &&& (b.number == BlockNumber::One || b.number == BlockNumber::Two)
}

impl Board {
    /// Both dimensions are at least one cell.
    pub open spec fn dims_valid(self) -> bool {
        self.width >= 1 && self.height >= 1
    }

    /// `b` lies inside the grid.
    pub open spec fn block_in_bounds(self, b: Block) -> bool {
        b.position.x < self.width && b.position.y < self.height
    }

    /// Every settled block lies inside the grid.
    pub open spec fn blocks_in_bounds(self) -> bool {
        seq_in_bounds(self.blocks@, self.width as int, self.height as int)
    }

    /// The falling block lies inside the grid.
    pub open spec fn current_in_bounds(self) -> bool {
        self.block_in_bounds(self.current_block)
    }

    /// No two settled blocks share a cell.
    pub open spec fn positions_distinct(self) -> bool {
        seq_positions_distinct(self.blocks@)
    }

    /// No settled block shares a cell with the falling block.
    pub open spec fn current_cell_free(self) -> bool {
        forall|i: int|
            0 <= i < self.blocks@.len() ==> (#[trigger] self.blocks@[i]).position
                != self.current_block.position
    }

    /// The board invariant: valid dimensions, everything in bounds, and no
    /// two blocks (falling or settled) on one cell.
    pub open spec fn wf(self) -> bool {
        &&& self.dims_valid()
        &&& self.blocks_in_bounds()
        &&& self.current_in_bounds()
        &&& self.positions_distinct()
        &&& self.current_cell_free()
    }

    /// The column where new falling blocks appear.
    pub open spec fn spawn_x(self) -> int {
        (self.width as int - 1) / 2
    }

    /// Whether the spawn cell is already claimed by a settled block or by the
    /// falling block itself.
    pub open spec fn spawn_cell_taken(self) -> bool {
        ||| occupied(self.blocks@, self.spawn_x(), 0)
        ||| (self.current_block.position.x as int == self.spawn_x()
            && self.current_block.position.y == 0)
    }

    /// A step to the left is legal: not at the wall, and the cell to the left
    /// is free.
    pub open spec fn can_move_left(self) -> bool {
        self.current_block.position.x > 0 && !occupied(
            self.blocks@,
            self.current_block.position.x as int - 1,
            self.current_block.position.y as int,
        )
    }

    /// A step to the right is legal: not at the wall, and the cell to the
    /// right is free.
    pub open spec fn can_move_right(self) -> bool {
        (self.current_block.position.x as int) < self.width as int - 1 && !occupied(
            self.blocks@,
            self.current_block.position.x as int + 1,
            self.current_block.position.y as int,
        )
    }

    /// The falling block may descend one row: it is above the row just over
    /// the topmost obstacle of its column, or, with an empty column, above
    /// the floor.
    pub open spec fn can_descend(self) -> bool {
        match col_obstacle(self.blocks@, self.current_block.position.x as int) {
            Some(oy) => (self.current_block.position.y as int) < (
            if oy > 0 {
                oy as int - 1
            } else {
                0
            }),
            None => (self.current_block.position.y as int) < self.height as int - 1,
        }
    }
}

/// Relies on rand::thread_rng and rand::Rng::gen_range: with bounds 0 and 2
/// the draw returns a value in [0, 2) and cannot panic. Nothing beyond the
/// range is assumed of the outcome.
#[verifier::external_body]
fn random_index_of_two() -> (r: u32)
    ensures
        r < 2,
{
    let mut rng = rand::thread_rng();
    rand::Rng::gen_range(&mut rng, 0u32, 2u32)
}

impl Board {
    /// A fresh falling block: centered on the top row, with one of the two
    /// lowest values, chosen at random.
    fn default_current_block(width: u32) -> (r: Block)
        requires
            width >= 1,
        ensures
            is_spawn_block(r, width),
    {
        let random_value: u32 = random_index_of_two();
        Block::new(
            if random_value < 1 {
                BlockNumber::One
            } else {
                BlockNumber::Two
            },
            (width - 1) / 2,
            0,
        )
    }

    /// A new board with the given dimensions, no settled blocks, and one
    /// freshly spawned falling block.
    pub fn new(width: u32, height: u32) -> (r: Self)
        requires
            width >= 1,
            height >= 1,
        ensures
            r.width == width,
            r.height == height,
            r.blocks@ == Seq::<Block>::empty(),
            is_spawn_block(r.current_block, width),
            r.wf(),
    {
        let board = Self {
            width,
            height,
            current_block: Board::default_current_block(width),
            blocks: vec![],
        };
        proof {
            assert(board.blocks@ =~= Seq::<Block>::empty());
            assert((width as int - 1) / 2 < width as int);
        }
        board
    }
}

/// What a `first_block_at` lookup says of the whole sequence: a hit is a
/// block of the sequence at that cell; a miss means the cell is free.
pub proof fn lemma_first_block_at(blocks: Seq<Block>, x: int, y: int)
    ensures
        match first_block_at(blocks, x, y) {
            Some(b) => blocks.contains(b) && b.position.x as int == x && b.position.y as int == y,
            None => !occupied(blocks, x, y),
        },
    decreases blocks.len(),
{
    if blocks.len() == 0 {
    } else if blocks[0].position.x as int == x && blocks[0].position.y as int == y {
        assert(blocks.contains(blocks[0]));
    } else {
        lemma_first_block_at(blocks.drop_first(), x, y);
        match first_block_at(blocks, x, y) {
            Some(b) => {
                let i = choose|i: int|
                    0 <= i < blocks.drop_first().len() && blocks.drop_first()[i] == b;
                assert(blocks[i + 1] == b);
                assert(blocks.contains(b));
            },
            None => {
                assert forall|i: int|
                    !(0 <= i < blocks.len() && (#[trigger] blocks[i]).position.x as int == x
                        && blocks[i].position.y as int == y) by {
                    if 0 < i < blocks.len() {
                        assert(blocks.drop_first()[i - 1] == blocks[i]);
                    }
                }
            },
        }
    }
}

/// What `col_obstacle` says of the whole sequence: a miss means the column is
/// empty; a hit is the least `y` held by a block of that column.
pub proof fn lemma_col_obstacle(blocks: Seq<Block>, x: int)
    ensures
        match col_obstacle(blocks, x) {
            None => forall|i: int|
                0 <= i < blocks.len() ==> (#[trigger] blocks[i]).position.x as int != x,
            Some(m) => (exists|i: int|
                0 <= i < blocks.len() && (#[trigger] blocks[i]).position.x as int == x
                    && blocks[i].position.y == m) && forall|i: int|
                0 <= i < blocks.len() && (#[trigger] blocks[i]).position.x as int == x
                    ==> m <= blocks[i].position.y,
        },
    decreases blocks.len(),
{
    if blocks.len() == 0 {
    } else {
        lemma_col_obstacle(blocks.drop_last(), x);
        let last = blocks.last();
        assert(blocks[blocks.len() - 1] == last);
        assert(forall|i: int|
            0 <= i < blocks.len() - 1 ==> blocks.drop_last()[i] == #[trigger] blocks[i]);
    }
}

impl Board {
    /// The first settled block at cell `(x, y)`, if any.
    pub fn block_at(&self, x: u32, y: u32) -> (r: Option<Block>)
        ensures
            r == first_block_at(self.blocks@, x as int, y as int),
    {
        let n: usize = self.blocks.len();
        let mut i: usize = 0;
        proof {
            assert(self.blocks@.skip(0) =~= self.blocks@);
        }
        while i < n
            invariant
                n == self.blocks@.len(),
                0 <= i <= n,
                first_block_at(self.blocks@, x as int, y as int) == first_block_at(
                    self.blocks@.skip(i as int),
                    x as int,
                    y as int,
                ),
            decreases n - i,
        {
            let b = self.blocks[i];
            proof {
                assert(self.blocks@.skip(i as int)[0] == b);
            }
            if b.position.x == x && b.position.y == y {
                return Some(b);
            }
            proof {
                assert(self.blocks@.skip(i as int).drop_first() =~= self.blocks@.skip(
                    i as int + 1,
                ));
            }
            i = i + 1;
        }
        proof {
            assert(self.blocks@.skip(n as int) =~= Seq::<Block>::empty());
        }
        None
    }

    /// Whether the falling block may step left: mirrors `can_move_left`.
    fn movable_to_left(&self) -> (r: bool)
        ensures
            r == self.can_move_left(),
    {
        let cx = self.current_block.position.x;
        let cy = self.current_block.position.y;
        if cx == 0 {
            return false;
        }
        let hit = self.block_at(cx - 1, cy);
        proof {
            lemma_first_block_at(self.blocks@, cx as int - 1, cy as int);
            if hit is Some {
                let b = hit->Some_0;
                let i = choose|i: int| 0 <= i < self.blocks@.len() && self.blocks@[i] == b;
                assert(occupied(self.blocks@, cx as int - 1, cy as int));
            }
        }
        hit.is_none()
    }

    /// Whether the falling block may step right: mirrors `can_move_right`.
    fn movable_to_right(&self) -> (r: bool)
        requires
            self.dims_valid(),
        ensures
            r == self.can_move_right(),
    {
        let cx = self.current_block.position.x;
        let cy = self.current_block.position.y;
        if cx >= self.width - 1 {
            return false;
        }
        let hit = self.block_at(cx + 1, cy);
        proof {
            lemma_first_block_at(self.blocks@, cx as int + 1, cy as int);
            if hit is Some {
                let b = hit->Some_0;
                let i = choose|i: int| 0 <= i < self.blocks@.len() && self.blocks@[i] == b;
                assert(occupied(self.blocks@, cx as int + 1, cy as int));
            }
        }
        hit.is_none()
    }

    /// Whether the falling block may descend one row: mirrors `can_descend`.
    /// The topmost obstacle of the block's column decides, or the floor when
    /// the column is empty.
    fn movable_to_down(&self) -> (r: bool)
        requires
            self.dims_valid(),
        ensures
            r == self.can_descend(),
    {
        let cx = self.current_block.position.x;
        let cy = self.current_block.position.y;
        let n: usize = self.blocks.len();
        let mut lowest: Option<u32> = None;
        let mut i: usize = 0;
        while i < n
            invariant
                n == self.blocks@.len(),
                0 <= i <= n,
                lowest == col_obstacle(self.blocks@.take(i as int), cx as int),
            decreases n - i,
        {
            let b = self.blocks[i];
            proof {
                assert(self.blocks@.take(i as int + 1).drop_last() =~= self.blocks@.take(i as int));
                assert(self.blocks@.take(i as int + 1).last() == b);
            }
            if b.position.x == cx {
                lowest = match lowest {
                    None => Some(b.position.y),
                    Some(m) => Some(
                        if b.position.y < m {
                            b.position.y
                        } else {
                            m
                        },
                    ),
                };
            }
            i = i + 1;
        }
        proof {
            assert(self.blocks@.take(n as int) =~= self.blocks@);
        }
        match lowest {
            Some(oy) => cy < (if oy > 0 {
                oy - 1
            } else {
                0
            }),
            None => cy < self.height - 1,
        }
    }

    /// Steer the falling block. An illegal step is a silent no-op; a blocked
    /// DOWN settles the block where it stands and spawns a fresh one at the
    /// top center. Only that settling case touches the settled collection.
    pub fn move_current_block(&mut self, direction: Direction)
        requires
            old(self).dims_valid(),
            old(self).blocks_in_bounds(),
        ensures
            final(self).width == old(self).width,
            final(self).height == old(self).height,
            direction is LEFT ==> final(self).blocks@ == old(self).blocks@ && final(self).current_block == (if old(self).can_move_left() {
                Block {
                    number: old(self).current_block.number,
                    position: Position {
                        x: (old(self).current_block.position.x - 1) as u32,
                        y: old(self).current_block.position.y,
                    },
                }
            } else {
                old(self).current_block
            }),
            direction is RIGHT ==> final(self).blocks@ == old(self).blocks@ && final(self).current_block == (if old(self).can_move_right() {
                Block {
                    number: old(self).current_block.number,
                    position: Position {
                        x: (old(self).current_block.position.x + 1) as u32,
                        y: old(self).current_block.position.y,
                    },
                }
            } else {
                old(self).current_block
            }),
            direction is DOWN && old(self).can_descend() ==> final(self).blocks@ == old(self).blocks@ && final(self).current_block == (Block {
                number: old(self).current_block.number,
                position: Position {
                    x: old(self).current_block.position.x,
                    y: (old(self).current_block.position.y + 1) as u32,
                },
            }),
            direction is DOWN && !old(self).can_descend() ==> final(self).blocks@ == old(self).blocks@.push(old(self).current_block) && is_spawn_block(
                final(self).current_block,
                old(self).width,
            ),
            old(self).wf() && !(direction is DOWN && !old(self).can_descend() && old(self).spawn_cell_taken()) ==> final(self).wf(),
    {
        let prev_x = self.current_block.position.x;
        let prev_y = self.current_block.position.y;
        match direction {
            Direction::LEFT => {
                self.current_block.position.x = if self.movable_to_left() {
                    prev_x - 1
                } else {
                    prev_x
                };
            },
            Direction::RIGHT => {
                self.current_block.position.x = if self.movable_to_right() {
                    prev_x + 1
                } else {
                    prev_x
                };
            },
            Direction::DOWN => {
                if self.movable_to_down() {
                    self.current_block.position.y = prev_y + 1;
                } else {
                    let settled = self.current_block;
                    self.blocks.push(settled);
                    self.current_block = Board::default_current_block(self.width);
                }
            },
        }
        proof {
            self.lemma_move_wf(*old(self), direction);
        }
    }

    /// The invariant-preservation argument behind `move_current_block`:
    /// whenever the step's ensures clauses relate `pre` to `self`, the board
    /// invariant carries over, unless a blocked DOWN settled onto a board
    /// whose spawn cell was already taken.
    proof fn lemma_move_wf(&self, pre: Board, direction: Direction)
        requires
            pre.dims_valid(),
            pre.blocks_in_bounds(),
            self.width == pre.width,
            self.height == pre.height,
            direction is LEFT ==> self.blocks@ == pre.blocks@ && self.current_block == (
            if pre.can_move_left() {
                Block {
                    number: pre.current_block.number,
                    position: Position {
                        x: (pre.current_block.position.x - 1) as u32,
                        y: pre.current_block.position.y,
                    },
                }
            } else {
                pre.current_block
            }),
            direction is RIGHT ==> self.blocks@ == pre.blocks@ && self.current_block == (
            if pre.can_move_right() {
                Block {
                    number: pre.current_block.number,
                    position: Position {
                        x: (pre.current_block.position.x + 1) as u32,
                        y: pre.current_block.position.y,
                    },
                }
            } else {
                pre.current_block
            }),
            direction is DOWN && pre.can_descend() ==> self.blocks@ == pre.blocks@
                && self.current_block == (Block {
                number: pre.current_block.number,
                position: Position {
                    x: pre.current_block.position.x,
                    y: (pre.current_block.position.y + 1) as u32,
                },
            }),
            direction is DOWN && !pre.can_descend() ==> self.blocks@ == pre.blocks@.push(
                pre.current_block,
            ) && is_spawn_block(self.current_block, pre.width),
        ensures
            pre.wf() && !(direction is DOWN && !pre.can_descend() && pre.spawn_cell_taken())
                ==> self.wf(),
    {
        if !pre.wf() {
            return;
        }
        let cur = pre.current_block;
        match direction {
            Direction::LEFT => {
                if pre.can_move_left() {
                    assert forall|i: int| 0 <= i < self.blocks@.len() implies (
                    #[trigger] self.blocks@[i]).position != self.current_block.position by {
                        if self.blocks@[i].position == self.current_block.position {
                            assert(occupied(
                                pre.blocks@,
                                cur.position.x as int - 1,
                                cur.position.y as int,
                            ));
                        }
                    }
                }
            },
            Direction::RIGHT => {
                if pre.can_move_right() {
                    assert forall|i: int| 0 <= i < self.blocks@.len() implies (
                    #[trigger] self.blocks@[i]).position != self.current_block.position by {
                        if self.blocks@[i].position == self.current_block.position {
                            assert(occupied(
                                pre.blocks@,
                                cur.position.x as int + 1,
                                cur.position.y as int,
                            ));
                        }
                    }
                }
            },
            Direction::DOWN => {
                if pre.can_descend() {
                    lemma_col_obstacle(pre.blocks@, cur.position.x as int);
                    match col_obstacle(pre.blocks@, cur.position.x as int) {
                        Some(oy) => {
                            let wit = choose|i: int|
                                0 <= i < pre.blocks@.len() && (
                                #[trigger] pre.blocks@[i]).position.x as int
                                    == cur.position.x as int && pre.blocks@[i].position.y == oy;
                            assert(pre.blocks@[wit].position.y < pre.height);
                        },
                        None => {},
                    }
                    assert(self.current_in_bounds());
                    assert forall|i: int| 0 <= i < self.blocks@.len() implies (
                    #[trigger] self.blocks@[i]).position != self.current_block.position by {
                        if self.blocks@[i].position == self.current_block.position {
                            assert(pre.blocks@[i].position.x as int == cur.position.x as int);
                        }
                    }
                } else if !pre.spawn_cell_taken() {
                    let n = pre.blocks@.len() as int;
                    assert forall|i: int, j: int| 0 <= i < j < self.blocks@.len() implies (
                    #[trigger] self.blocks@[i]).position != (#[trigger] self.blocks@[j]).position by {
                        if j < n {
                            assert(pre.blocks@[i].position != pre.blocks@[j].position);
                        } else {
                            assert(self.blocks@[j] == cur);
                            assert(pre.blocks@[i].position != cur.position);
                        }
                    }
                    assert forall|i: int| 0 <= i < self.blocks@.len() implies self.block_in_bounds(
                        #[trigger] self.blocks@[i],
                    ) by {
                        if i < n {
                            assert(pre.block_in_bounds(pre.blocks@[i]));
                        }
                    }
                    assert((pre.width as int - 1) / 2 < pre.width as int);
                    assert forall|i: int| 0 <= i < self.blocks@.len() implies (
                    #[trigger] self.blocks@[i]).position != self.current_block.position by {
                        if self.blocks@[i].position == self.current_block.position {
                            if i < n {
                                assert(occupied(pre.blocks@, pre.spawn_x(), 0));
                            }
                        }
                    }
                }
            },
        }
    }
}

} // verus!
