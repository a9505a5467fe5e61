//! The board/game engine: a bounded grid, a snake with a heading and a
//! trailing body, and one discrete simulation step per tick.
//!
//! The board is a dense row-major grid of cells; a cell outside the board
//! always reads as `Wall`, and `Empty` marks a free cell.

use rand::Rng;
use vstd::prelude::*;

verus! {

/// How many of the first `n` cells of `s` are `Empty`.
pub open spec fn count_empty_upto(s: Seq<SnekObject>, n: int) -> int
    decreases n,
{
    if n <= 0 {
        0
    } else {
        count_empty_upto(s, n - 1) + if s[n - 1] == SnekObject::Empty {
            1int
        } else {
            0int
        }
    }
}

/// Overwriting one cell moves the empty count by the difference the two
/// contents make.
proof fn lemma_count_empty_update(s: Seq<SnekObject>, n: int, j: int, v: SnekObject)
    requires
        0 <= j < n <= s.len(),
    ensures
        count_empty_upto(s.update(j, v), n) == count_empty_upto(s, n) - (if s[j]
            == SnekObject::Empty {
            1int
        } else {
            0int
        }) + (if v == SnekObject::Empty {
            1int
        } else {
            0int
        }),
    decreases n,
{
    if j == n - 1 {
        lemma_count_empty_agree(s.update(j, v), s, n - 1);
    } else {
        lemma_count_empty_update(s, n - 1, j, v);
    }
}

/// The count over a prefix only looks at that prefix.
proof fn lemma_count_empty_agree(s1: Seq<SnekObject>, s2: Seq<SnekObject>, n: int)
    requires
        0 <= n <= s1.len(),
        n <= s2.len(),
        forall|i: int| 0 <= i < n ==> s1[i] == s2[i],
    ensures
        count_empty_upto(s1, n) == count_empty_upto(s2, n),
    decreases n,
{
    if n > 0 {
        lemma_count_empty_agree(s1, s2, n - 1);
    }
}

/// The four headings the snake's head can face.
#[derive(Clone, Copy, Debug, PartialEq, Eq, Structural)]
pub enum SnekDirection {
    North,
    East,
    West,
    South,
}

/// What a board cell holds. Queries outside the board report `Wall`.
#[derive(Clone, Copy, Debug, PartialEq, Eq, Structural)]
pub enum SnekObject {
    Berry,
    Empty,
    Head,
    Segment,
    Rock,
    Wall,
}

/// An integer coordinate pair. Not bounds-checked on its own: positions
/// outside the board are meaningful (their cells read as `Wall`).
#[derive(Clone, Copy, Debug, PartialEq, Eq, Structural, Hash)]
pub struct SnekPosition {
    pub x: i32,
    pub y: i32,
}

/// The heading that would point the snake straight back into its neck.
pub open spec fn reverse_of(d: SnekDirection) -> SnekDirection {
    match d {
        SnekDirection::North => SnekDirection::South,
        SnekDirection::East => SnekDirection::West,
        SnekDirection::West => SnekDirection::East,
        SnekDirection::South => SnekDirection::North,
    }
}

/// Horizontal displacement of one tick along heading `d`.
pub open spec fn dx(d: SnekDirection) -> int {
    match d {
        SnekDirection::East => 1,
        SnekDirection::West => -1,
        _ => 0,
    }
}

/// Vertical displacement of one tick along heading `d`.
pub open spec fn dy(d: SnekDirection) -> int {
    match d {
        SnekDirection::North => -1,
        SnekDirection::South => 1,
        _ => 0,
    }
}

/// Whether some position in `s` has coordinates `(x, y)`.
pub open spec fn contains_pos(s: Seq<SnekPosition>, x: int, y: int) -> bool {
    exists|i: int| 0 <= i < s.len() && s[i].x == x && s[i].y == y
}

/// Moving into one of these ends the round.
pub open spec fn fatal(obj: SnekObject) -> bool {
    obj == SnekObject::Wall || obj == SnekObject::Rock || obj == SnekObject::Segment
}

/// The game state: board, snake identity, and the one-way `game_over` flag.
#[derive(Debug)]
pub struct SnekGame {
    pub game_over: bool,
    pub xsize: usize,
    pub ysize: usize,
    pub board: Vec<SnekObject>,
    pub snek_head_pos: SnekPosition,
    pub snek_head_dir: SnekDirection,
    pub snek_segments: Vec<SnekPosition>,
    pub snek_segments_pending: usize,
}

impl SnekGame {
    /// Whether `(x, y)` lies strictly inside the board.
    pub open spec fn in_bounds(self, x: int, y: int) -> bool {
        0 <= x < self.xsize && 0 <= y < self.ysize
    }

    /// What the cell at `(x, y)` holds; total over all integer coordinates,
    /// with everything outside the board reading as `Wall`.
    pub open spec fn cell_at(self, x: int, y: int) -> SnekObject {
        if self.in_bounds(x, y) {
            self.board@[y * self.xsize + x]
        } else {
            SnekObject::Wall
        }
    }

    pub open spec fn spec_width(self) -> int {
        self.xsize as int
    }

    pub open spec fn spec_height(self) -> int {
        self.ysize as int
    }

    pub open spec fn spec_head(self) -> SnekPosition {
        self.snek_head_pos
    }

    pub open spec fn spec_dir(self) -> SnekDirection {
        self.snek_head_dir
    }

    pub open spec fn spec_segments(self) -> Seq<SnekPosition> {
        self.snek_segments@
    }

    pub open spec fn spec_pending(self) -> int {
        self.snek_segments_pending as int
    }

    /// Structural soundness of the grid itself: positive sides that fit in
    /// an `i32`, room for a row-major vector (and for one extra glyph per
    /// row when rendering), and a cell stored for every position.
    pub open spec fn board_wf(self) -> bool {
        &&& 0 < self.xsize <= 0x7fff_ffff
        &&& 0 < self.ysize <= 0x7fff_ffff
        &&& (self.xsize + 1) * self.ysize <= usize::MAX
        &&& self.board@.len() == self.xsize * self.ysize
    }

    /// The head's cell is marked `Head` whenever the head is on the board.
    pub open spec fn head_marked(self) -> bool {
        self.in_bounds(self.snek_head_pos.x as int, self.snek_head_pos.y as int)
            ==> self.cell_at(self.snek_head_pos.x as int, self.snek_head_pos.y as int)
                == SnekObject::Head
    }

    /// Every segment's cell is marked `Segment` whenever it is on the board.
    pub open spec fn segments_marked(self) -> bool {
        forall|i: int|
            0 <= i < self.snek_segments@.len() && self.in_bounds(
                (#[trigger] self.snek_segments@[i]).x as int,
                self.snek_segments@[i].y as int,
            ) ==> self.cell_at(
                self.snek_segments@[i].x as int,
                self.snek_segments@[i].y as int,
            ) == SnekObject::Segment
    }

    /// Well-formedness of a whole game state. `new` establishes it and every
    /// mutation preserves it.
    pub open spec fn wf(self) -> bool {
        &&& self.board_wf()
        &&& 0 <= self.snek_head_pos.x <= 0x7fff_fffe
        &&& 0 <= self.snek_head_pos.y <= 0x7fff_fffe
        &&& self.snek_segments_pending <= 3
        &&& (self.snek_segments_pending >= 1 || self.snek_segments@.len() >= 1)
        &&& (self.snek_segments_pending < 3 ==> self.in_bounds(
            self.snek_head_pos.x as int,
            self.snek_head_pos.y as int,
        ))
        &&& self.head_marked()
        &&& self.segments_marked()
    }

    /// Everything but the grid contents agrees between `a` and `b`.
    pub open spec fn same_but_board(a: SnekGame, b: SnekGame) -> bool {
        &&& a.game_over == b.game_over
        &&& a.xsize == b.xsize
        &&& a.ysize == b.ysize
        &&& a.snek_head_pos == b.snek_head_pos
        &&& a.snek_head_dir == b.snek_head_dir
        &&& a.snek_segments == b.snek_segments
        &&& a.snek_segments_pending == b.snek_segments_pending
    }

    /// How many free cells the board has.
    pub open spec fn empty_cells(self) -> int {
        count_empty_upto(self.board@, self.board@.len() as int)
    }

    /// The x coordinate one tick ahead of the head.
    pub open spec fn spec_new_x(self) -> int {
        self.snek_head_pos.x + dx(self.snek_head_dir)
    }

    /// The y coordinate one tick ahead of the head.
    pub open spec fn spec_new_y(self) -> int {
        self.snek_head_pos.y + dy(self.snek_head_dir)
    }

    /// What the head is about to move into.
    pub open spec fn spec_target(self) -> SnekObject {
        self.cell_at(self.spec_new_x(), self.spec_new_y())
    }

    /// Growth owed at the coming step, counting a berry about to be eaten.
    pub open spec fn spec_eff_pending(self) -> int {
        self.snek_segments_pending + if self.spec_target() == SnekObject::Berry {
            1int
        } else {
            0int
        }
    }

    /// The segment list after a non-fatal step: the spot the head leaves
    /// becomes the neck; the tail is kept while growth is owed and dropped
    /// otherwise, so the snake slides at constant length.
    pub open spec fn spec_post_segments(self) -> Seq<SnekPosition> {
        if self.spec_eff_pending() > 0 {
            seq![self.snek_head_pos] + self.snek_segments@
        } else {
            seq![self.snek_head_pos] + self.snek_segments@.drop_last()
        }
    }

    /// Growth still owed after a non-fatal step.
    pub open spec fn spec_post_pending(self) -> int {
        if self.spec_eff_pending() > 0 {
            self.spec_eff_pending() - 1
        } else {
            0
        }
    }

    /// What an in-bounds cell reads after the snake has moved, given what it
    /// read just before the move: the re-stamped body wins, then the new
    /// head, then the spots the snake vacated, and any untouched cell keeps
    /// its prior content.
    pub open spec fn moved_cell(self, x: int, y: int, before: SnekObject) -> SnekObject {
        if contains_pos(self.spec_post_segments(), x, y) {
            SnekObject::Segment
        } else if x == self.spec_new_x() && y == self.spec_new_y() {
            SnekObject::Head
        } else if (x == self.snek_head_pos.x && y == self.snek_head_pos.y) || contains_pos(
            self.snek_segments@,
            x,
            y,
        ) {
            SnekObject::Empty
        } else {
            before
        }
    }

    /// The same state with the round marked as over.
    pub open spec fn spec_halt(self) -> SnekGame {
        SnekGame { game_over: true, ..self }
    }

    /// The scalar frame of a non-fatal step: the head advances one cell
    /// along the heading, the body follows, and the round stays live.
    pub open spec fn move_frame(pre: SnekGame, post: SnekGame) -> bool {
        &&& !post.game_over
        &&& post.xsize == pre.xsize
        &&& post.ysize == pre.ysize
        &&& post.snek_head_dir == pre.snek_head_dir
        &&& post.snek_head_pos.x == pre.spec_new_x()
        &&& post.snek_head_pos.y == pre.spec_new_y()
        &&& post.snek_segments@ == pre.spec_post_segments()
        &&& post.snek_segments_pending == pre.spec_post_pending()
    }

    /// A step onto a free cell: the snake moves, nothing else changes.
    pub open spec fn plain_move(pre: SnekGame, post: SnekGame) -> bool {
        &&& Self::move_frame(pre, post)
        &&& forall|x: int, y: int|
            pre.in_bounds(x, y) ==> #[trigger] post.cell_at(x, y) == pre.moved_cell(
                x,
                y,
                pre.cell_at(x, y),
            )
    }

    /// A fresh berry sits at `bp` and a fresh rock at `rp`, both spots free
    /// beforehand, and nothing else distinguishes `mid` from `pre`'s board.
    spec fn spawned(pre: SnekGame, mid: SnekGame, bp: SnekPosition, rp: SnekPosition) -> bool {
        &&& pre.in_bounds(bp.x as int, bp.y as int)
        &&& pre.cell_at(bp.x as int, bp.y as int) == SnekObject::Empty
        &&& pre.in_bounds(rp.x as int, rp.y as int)
        &&& pre.cell_at(rp.x as int, rp.y as int) == SnekObject::Empty
        &&& bp != rp
        &&& forall|x: int, y: int|
            #[trigger] mid.cell_at(x, y) == (if x == bp.x as int && y == bp.y as int {
                SnekObject::Berry
            } else if x == rp.x as int && y == rp.y as int {
                SnekObject::Rock
            } else {
                pre.cell_at(x, y)
            })
    }

    /// A step onto a berry: one fresh berry lands on the free cell `bp` and
    /// one fresh rock on the free cell `rp`, and the snake then moves over
    /// the board so obtained.
    pub open spec fn berry_move(
        pre: SnekGame,
        post: SnekGame,
        bp: SnekPosition,
        rp: SnekPosition,
    ) -> bool {
        &&& pre.in_bounds(bp.x as int, bp.y as int)
        &&& pre.cell_at(bp.x as int, bp.y as int) == SnekObject::Empty
        &&& pre.in_bounds(rp.x as int, rp.y as int)
        &&& pre.cell_at(rp.x as int, rp.y as int) == SnekObject::Empty
        &&& bp != rp
        &&& Self::move_frame(pre, post)
        &&& forall|x: int, y: int|
            pre.in_bounds(x, y) ==> #[trigger] post.cell_at(x, y) == pre.moved_cell(
                x,
                y,
                if x == bp.x as int && y == bp.y as int {
                    SnekObject::Berry
                } else if x == rp.x as int && y == rp.y as int {
                    SnekObject::Rock
                } else {
                    pre.cell_at(x, y)
                },
            )
    }

    /// One tick of a live round. Moving into anything fatal only raises
    /// `game_over`; eating a berry spawns a berry and a rock on two free
    /// cells first (or, if the board lacks the room, ends the round); any
    /// other target is a plain move.
    pub open spec fn spec_step(pre: SnekGame, post: SnekGame) -> bool {
        if fatal(pre.spec_target()) {
            post == pre.spec_halt()
        } else if pre.spec_target() == SnekObject::Berry {
            if pre.empty_cells() < 2 {
                post == pre.spec_halt()
            } else {
                exists|bp: SnekPosition, rp: SnekPosition| Self::berry_move(pre, post, bp, rp)
            }
        } else {
            Self::plain_move(pre, post)
        }
    }

    /// Get the contents of a cell on the gameboard. The coordinates are
    /// signed so that neighbours of edge cells can be queried; anything
    /// outside the board is treated as a wall.
    pub fn get_cell(&self, pos: &SnekPosition) -> (obj: SnekObject)
        requires
            self.board_wf(),
        ensures
            obj == self.cell_at(pos.x as int, pos.y as int),
    {
        if pos.x < 0 || pos.y < 0 {
            return SnekObject::Wall;
        }
        let x = pos.x as usize;
        let y = pos.y as usize;
        if x >= self.xsize || y >= self.ysize {
            return SnekObject::Wall;
        }
        proof {
            lemma_grid_index(*self, x as int, y as int);
        }
        self.board[y * self.xsize + x]
    }

    /// Set a cell on the gameboard to a particular object. If the cell is
    /// outside the bounds of the board, this is a deliberate no-op.
    pub fn set_cell(&mut self, pos: &SnekPosition, obj: SnekObject)
        requires
            old(self).board_wf(),
        ensures
            final(self).board_wf(),
            Self::same_but_board(*final(self), *old(self)),
            forall|x: int, y: int|
                #[trigger] final(self).cell_at(x, y) == if x == pos.x as int && y == pos.y as int
                    && old(self).in_bounds(x, y) {
                    obj
                } else {
                    old(self).cell_at(x, y)
                },
            old(self).in_bounds(pos.x as int, pos.y as int) ==> final(self).board@ == old(
                self,
            ).board@.update(pos.y as int * old(self).xsize + pos.x as int, obj),
            !old(self).in_bounds(pos.x as int, pos.y as int) ==> final(self).board@ == old(
                self,
            ).board@,
    {
        if pos.x < 0 || pos.y < 0 {
            return;
        }
        let x = pos.x as usize;
        let y = pos.y as usize;
        if x >= self.xsize || y >= self.ysize {
            return;
        }
        proof {
            lemma_grid_index(*self, x as int, y as int);
        }
        let idx = y * self.xsize + x;
        self.board[idx] = obj;
        proof {
            assert forall|i: int, j: int|
                #[trigger] self.cell_at(i, j) == if i == pos.x as int && j == pos.y as int
                    && old(self).in_bounds(i, j) {
                    obj
                } else {
                    old(self).cell_at(i, j)
                } by {
                if self.in_bounds(i, j) {
                    lemma_grid_index(*old(self), i, j);
                    if j * self.xsize + i == idx {
                        lemma_row_major_inj(
                            i,
                            j,
                            x as int,
                            y as int,
                            self.xsize as int,
                        );
                    }
                }
            }
        }
    }

    /// How many free cells the board has.
    pub fn count_empty(&self) -> (n: usize)
        requires
            self.board_wf(),
        ensures
            n as int == self.empty_cells(),
    {
        let mut n: usize = 0;
        let mut i: usize = 0;
        let len = self.board.len();
        while i < len
            invariant
                i <= len,
                len == self.board@.len(),
                n <= i,
                n as int == count_empty_upto(self.board@, i as int),
            decreases len - i,
        {
            if self.board[i] == SnekObject::Empty {
                n += 1;
            }
            i += 1;
        }
        n
    }

    /// The first free cell in row-major order. Only called when one exists.
    fn find_empty_cell(&self) -> (p: SnekPosition)
        requires
            self.board_wf(),
            self.empty_cells() >= 1,
        ensures
            self.in_bounds(p.x as int, p.y as int),
            self.cell_at(p.x as int, p.y as int) == SnekObject::Empty,
    {
        let mut y: usize = 0;
        while y < self.ysize
            invariant
                self.board_wf(),
                y <= self.ysize,
                count_empty_upto(self.board@, y as int * self.xsize as int) == 0,
            decreases self.ysize - y,
        {
            let mut x: usize = 0;
            while x < self.xsize
                invariant
                    self.board_wf(),
                    y < self.ysize,
                    x <= self.xsize,
                    count_empty_upto(self.board@, y as int * self.xsize as int + x as int) == 0,
                decreases self.xsize - x,
            {
                proof {
                    lemma_grid_index(*self, x as int, y as int);
                }
                if self.board[y * self.xsize + x] == SnekObject::Empty {
                    return SnekPosition { x: x as i32, y: y as i32 };
                }
                x += 1;
            }
            proof {
                assert((y + 1) as int * self.xsize as int == y as int * self.xsize as int
                    + self.xsize as int) by (nonlinear_arith);
            }
            y += 1;
        }
        proof {
            assert(self.ysize as int * self.xsize as int == self.xsize as int
                * self.ysize as int) by (nonlinear_arith);
        }
        // Unreachable: a free cell was promised, and none was skipped.
        assert(false);
        SnekPosition { x: 0, y: 0 }
    }

    /// Put `obj` on a free cell, preferring a randomly probed one and
    /// falling back to a row-major sweep, so that placement cannot starve
    /// while the board still has room.
    fn add_random_object(
        &mut self,
        rng: &mut rand::rngs::ThreadRng,
        obj: SnekObject,
    )
        requires
            old(self).board_wf(),
            old(self).empty_cells() >= 1,
            obj != SnekObject::Empty,
        ensures
            final(self).board_wf(),
            Self::same_but_board(*final(self), *old(self)),
            final(self).empty_cells() == old(self).empty_cells() - 1,
            exists|p: SnekPosition|
                {
                    &&& old(self).in_bounds(p.x as int, p.y as int)
                    &&& old(self).cell_at(p.x as int, p.y as int) == SnekObject::Empty
                    &&& forall|x: int, y: int|
                        #[trigger] final(self).cell_at(x, y) == (if x == p.x as int && y
                            == p.y as int {
                            obj
                        } else {
                            old(self).cell_at(x, y)
                        })
                },
    {
        let mut attempts: usize = 0;
        let mut place: Option<SnekPosition> = None;
        while attempts < 64 && place.is_none()
            invariant
                *self == *old(self),
                self.board_wf(),
                self.empty_cells() >= 1,
                place matches Some(p) ==> self.in_bounds(p.x as int, p.y as int)
                    && self.cell_at(p.x as int, p.y as int) == SnekObject::Empty,
            decreases 64 - attempts,
        {
            let x = rng_below(rng, self.xsize);
            let y = rng_below(rng, self.ysize);
            let probe = SnekPosition { x: x as i32, y: y as i32 };
            if self.get_cell(&probe) == SnekObject::Empty {
                place = Some(probe);
            }
            attempts += 1;
        }
        let p = match place {
            Some(p) => p,
            None => self.find_empty_cell(),
        };
        proof {
            lemma_grid_index(*self, p.x as int, p.y as int);
            lemma_count_empty_update(
                self.board@,
                self.board@.len() as int,
                p.y as int * self.xsize as int + p.x as int,
                obj,
            );
        }
        self.set_cell(&p, obj);
    }

    /// Add a berry in a random, empty cell.
    fn add_berry(&mut self, rng: &mut rand::rngs::ThreadRng)
        requires
            old(self).board_wf(),
            old(self).empty_cells() >= 1,
        ensures
            final(self).board_wf(),
            Self::same_but_board(*final(self), *old(self)),
            final(self).empty_cells() == old(self).empty_cells() - 1,
            exists|p: SnekPosition|
                {
                    &&& old(self).in_bounds(p.x as int, p.y as int)
                    &&& old(self).cell_at(p.x as int, p.y as int) == SnekObject::Empty
                    &&& forall|x: int, y: int|
                        #[trigger] final(self).cell_at(x, y) == (if x == p.x as int && y
                            == p.y as int {
                            SnekObject::Berry
                        } else {
                            old(self).cell_at(x, y)
                        })
                },
    {
        self.add_random_object(rng, SnekObject::Berry);
    }

    /// Add a rock in a random, empty cell.
    fn add_rock(&mut self, rng: &mut rand::rngs::ThreadRng)
        requires
            old(self).board_wf(),
            old(self).empty_cells() >= 1,
        ensures
            final(self).board_wf(),
            Self::same_but_board(*final(self), *old(self)),
            final(self).empty_cells() == old(self).empty_cells() - 1,
            exists|p: SnekPosition|
                {
                    &&& old(self).in_bounds(p.x as int, p.y as int)
                    &&& old(self).cell_at(p.x as int, p.y as int) == SnekObject::Empty
                    &&& forall|x: int, y: int|
                        #[trigger] final(self).cell_at(x, y) == (if x == p.x as int && y
                            == p.y as int {
                            SnekObject::Rock
                        } else {
                            old(self).cell_at(x, y)
                        })
                },
    {
        self.add_random_object(rng, SnekObject::Rock);
    }

    /// Updates the snake's heading. Pointing it straight back into its own
    /// neck is a no-op; any other heading takes effect on the next step.
    pub fn set_snekdir(&mut self, dir: SnekDirection)
        ensures
            final(self).snek_head_dir == (if dir == reverse_of(old(self).snek_head_dir) {
                old(self).snek_head_dir
            } else {
                dir
            }),
            final(self).game_over == old(self).game_over,
            final(self).xsize == old(self).xsize,
            final(self).ysize == old(self).ysize,
            final(self).board == old(self).board,
            final(self).snek_head_pos == old(self).snek_head_pos,
            final(self).snek_segments == old(self).snek_segments,
            final(self).snek_segments_pending == old(self).snek_segments_pending,
            old(self).wf() ==> final(self).wf(),
    {
        let curdir = self.snek_head_dir;
        match curdir {
            SnekDirection::North => {
                if dir == SnekDirection::South {
                    return;
                }
            },
            SnekDirection::East => {
                if dir == SnekDirection::West {
                    return;
                }
            },
            SnekDirection::West => {
                if dir == SnekDirection::East {
                    return;
                }
            },
            SnekDirection::South => {
                if dir == SnekDirection::North {
                    return;
                }
            },
        }
        self.snek_head_dir = dir;
    }

    /// Advances the simulation by exactly one tick, as `spec_step` states:
    /// a finished round is left untouched; a fatal target only raises
    /// `game_over`; a berry grows the snake and spawns a fresh berry and
    /// rock; otherwise the snake slides one cell along its heading.
    #[verifier::rlimit(100)]
    pub fn step(&mut self)
        requires
            old(self).wf(),
        ensures
            final(self).wf(),
            old(self).game_over ==> *final(self) == *old(self),
            !old(self).game_over ==> Self::spec_step(*old(self), *final(self)),
    {
        // Check if game is in end state. No-op if true.
        if self.game_over {
            return;
        }
        // Snek moves one step in facing direction.
        let pos = self.snek_head_pos;
        let mut new_pos = pos;
        match self.snek_head_dir {
            SnekDirection::North => {
                new_pos.y = new_pos.y - 1;
            },
            SnekDirection::East => {
                new_pos.x = new_pos.x + 1;
            },
            SnekDirection::West => {
                new_pos.x = new_pos.x - 1;
            },
            SnekDirection::South => {
                new_pos.y = new_pos.y + 1;
            },
        }
        let ghost pre = *old(self);
        assert(new_pos.x as int == pre.spec_new_x() && new_pos.y as int == pre.spec_new_y());
        let target = self.get_cell(&new_pos);
        proof {
            // The head never doubles over the spot it stands on, and a cell
            // the body occupies reads as `Segment`, so a non-fatal target is
            // not a segment position.
            assert(!(new_pos.x == pos.x && new_pos.y == pos.y));
            if !fatal(target) && contains_pos(pre.snek_segments@, new_pos.x as int,
                new_pos.y as int) {
                let i = choose|i: int|
                    0 <= i < pre.snek_segments@.len() && pre.snek_segments@[i].x
                        == new_pos.x as int && pre.snek_segments@[i].y == new_pos.y as int;
                assert(pre.cell_at(new_pos.x as int, new_pos.y as int) == SnekObject::Segment);
                assert(false);
            }
        }
        match target {
            SnekObject::Berry => {
                // Spawning needs room for a berry and a rock; without it the
                // round ends instead of hunting for cells that do not exist.
                let empties = self.count_empty();
                if empties < 2 {
                    self.game_over = true;
                    return;
                }
                self.snek_segments_pending = self.snek_segments_pending + 1;
                let mut rng = thread_rng_handle();
                let ghost sa = *self;
                self.add_berry(&mut rng);
                let ghost sb = *self;
                self.add_rock(&mut rng);
                proof {
                    let sc = *self;
                    let bp = choose|p: SnekPosition|
                        {
                            &&& sa.in_bounds(p.x as int, p.y as int)
                            &&& sa.cell_at(p.x as int, p.y as int) == SnekObject::Empty
                            &&& forall|x: int, y: int|
                                #[trigger] sb.cell_at(x, y) == (if x == p.x as int && y
                                    == p.y as int {
                                    SnekObject::Berry
                                } else {
                                    sa.cell_at(x, y)
                                })
                        };
                    let rp = choose|p: SnekPosition|
                        {
                            &&& sb.in_bounds(p.x as int, p.y as int)
                            &&& sb.cell_at(p.x as int, p.y as int) == SnekObject::Empty
                            &&& forall|x: int, y: int|
                                #[trigger] sc.cell_at(x, y) == (if x == p.x as int && y
                                    == p.y as int {
                                    SnekObject::Rock
                                } else {
                                    sb.cell_at(x, y)
                                })
                        };
                    assert(sb.cell_at(bp.x as int, bp.y as int) == SnekObject::Berry);
                    assert(bp != rp);
                    assert forall|x: int, y: int| #[trigger] sc.cell_at(x, y) == (if x
                        == bp.x as int && y == bp.y as int {
                        SnekObject::Berry
                    } else if x == rp.x as int && y == rp.y as int {
                        SnekObject::Rock
                    } else {
                        pre.cell_at(x, y)
                    }) by {
                        assert(sb.cell_at(x, y) == (if x == bp.x as int && y == bp.y as int {
                            SnekObject::Berry
                        } else {
                            sa.cell_at(x, y)
                        }));
                    }
                    assert(Self::spawned(pre, sc, bp, rp));
                }
            },
            SnekObject::Wall | SnekObject::Rock | SnekObject::Segment => {
                self.game_over = true;
                return;
            },
            _ => {},
        }
        let ghost mid = *self;
        // Move the head on the board and update the head position.
        self.set_cell(&pos, SnekObject::Empty);
        let ghost m1 = *self;
        self.snek_head_pos = new_pos;
        self.set_cell(&new_pos, SnekObject::Head);
        // Clear last round's segments from the board.
        let ghost cleared_from = *self;
        let mut i: usize = 0;
        while i < self.snek_segments.len()
            invariant
                i <= self.snek_segments@.len(),
                self.board_wf(),
                Self::same_but_board(*self, cleared_from),
                forall|x: int, y: int|
                    #[trigger] self.cell_at(x, y) == (if self.in_bounds(x, y) && contains_pos(
                        cleared_from.snek_segments@.take(i as int),
                        x,
                        y,
                    ) {
                        SnekObject::Empty
                    } else {
                        cleared_from.cell_at(x, y)
                    }),
            decreases self.snek_segments@.len() - i,
        {
            let p = self.snek_segments[i];
            self.set_cell(&p, SnekObject::Empty);
            i += 1;
            proof {
                assert forall|x: int, y: int| #[trigger] self.cell_at(x, y) == (if self.in_bounds(
                    x,
                    y,
                ) && contains_pos(cleared_from.snek_segments@.take(i as int), x, y) {
                    SnekObject::Empty
                } else {
                    cleared_from.cell_at(x, y)
                }) by {
                    lemma_contains_take_step(cleared_from.snek_segments@, i as int - 1, x, y);
                }
            }
        }
        proof {
            assert(cleared_from.snek_segments@.take(cleared_from.snek_segments@.len() as int)
                =~= cleared_from.snek_segments@);
        }
        let ghost m3 = *self;
        /* Update the segment positions. If we have segments waiting to be
         * appended, insert a new one at the spot the head just left; when
         * none are owed, the snake slides: new neck in, old tail out. */
        if self.snek_segments_pending > 0 {
            self.snek_segments.insert(0, pos);
            self.snek_segments_pending = self.snek_segments_pending - 1;
            proof {
                assert(self.snek_segments@ =~= seq![pos] + pre.snek_segments@);
            }
        }
        proof {
            if pre.spec_eff_pending() == 0 {
                // The neck differs from the spot the head just left: the
                // head's cell reads `Head`, a body cell reads `Segment`.
                assert(pre.cell_at(pos.x as int, pos.y as int) == SnekObject::Head);
                assert(self.snek_segments@.len() >= 1);
                if self.snek_segments@[0] == pos {
                    assert(pre.cell_at(pos.x as int, pos.y as int) == SnekObject::Segment);
                }
            }
        }
        if self.snek_segments[0] != pos {
            self.snek_segments.insert(0, pos);
            self.snek_segments.pop();
            proof {
                assert(self.snek_segments@ =~= seq![pos] + pre.snek_segments@.drop_last());
            }
        }
        proof {
            assert(self.snek_segments@ == pre.spec_post_segments());
            assert(self.snek_segments_pending as int == pre.spec_post_pending());
        }
        // Re-stamp the body onto the board.
        let ghost stamped_from = *self;
        let mut j: usize = 0;
        while j < self.snek_segments.len()
            invariant
                j <= self.snek_segments@.len(),
                self.board_wf(),
                Self::same_but_board(*self, stamped_from),
                forall|x: int, y: int|
                    #[trigger] self.cell_at(x, y) == (if self.in_bounds(x, y) && contains_pos(
                        stamped_from.snek_segments@.take(j as int),
                        x,
                        y,
                    ) {
                        SnekObject::Segment
                    } else {
                        stamped_from.cell_at(x, y)
                    }),
            decreases self.snek_segments@.len() - j,
        {
            let p = self.snek_segments[j];
            self.set_cell(&p, SnekObject::Segment);
            j += 1;
            proof {
                assert forall|x: int, y: int| #[trigger] self.cell_at(x, y) == (if self.in_bounds(
                    x,
                    y,
                ) && contains_pos(stamped_from.snek_segments@.take(j as int), x, y) {
                    SnekObject::Segment
                } else {
                    stamped_from.cell_at(x, y)
                }) by {
                    lemma_contains_take_step(stamped_from.snek_segments@, j as int - 1, x, y);
                }
            }
        }
        proof {
            assert(stamped_from.snek_segments@.take(stamped_from.snek_segments@.len() as int)
                =~= stamped_from.snek_segments@);
            let fin = *self;
            let nx = pre.spec_new_x();
            let ny = pre.spec_new_y();
            let kept = if pre.spec_eff_pending() > 0 {
                pre.snek_segments@
            } else {
                pre.snek_segments@.drop_last()
            };
            assert(pre.spec_post_segments() == seq![pos] + kept);
            assert(pre.in_bounds(nx, ny));
            assert(!contains_pos(kept, nx, ny)) by {
                if contains_pos(kept, nx, ny) && pre.spec_eff_pending() == 0 {
                    lemma_contains_drop_last(pre.snek_segments@, nx, ny);
                }
            }
            assert(Self::move_frame(pre, fin));
            if target == SnekObject::Berry {
                let (bp, rp) = choose|b: SnekPosition, r: SnekPosition|
                    Self::spawned(pre, mid, b, r);
                assert forall|x: int, y: int| pre.in_bounds(x, y) implies #[trigger] fin.cell_at(
                    x,
                    y,
                ) == pre.moved_cell(
                    x,
                    y,
                    if x == bp.x as int && y == bp.y as int {
                        SnekObject::Berry
                    } else if x == rp.x as int && y == rp.y as int {
                        SnekObject::Rock
                    } else {
                        pre.cell_at(x, y)
                    },
                ) by {
                    lemma_contains_prepend(pos, kept, x, y);
                    if pre.spec_eff_pending() == 0 && contains_pos(kept, x, y) {
                        lemma_contains_drop_last(pre.snek_segments@, x, y);
                    }
                    assert(m3.cell_at(x, y) == (if cleared_from.in_bounds(x, y) && contains_pos(
                        pre.snek_segments@,
                        x,
                        y,
                    ) {
                        SnekObject::Empty
                    } else {
                        cleared_from.cell_at(x, y)
                    }));
                    assert(m1.cell_at(x, y) == (if x == pos.x as int && y == pos.y as int
                        && mid.in_bounds(x, y) {
                        SnekObject::Empty
                    } else {
                        mid.cell_at(x, y)
                    }));
                }
                assert(Self::berry_move(pre, fin, bp, rp));
            } else {
                assert forall|x: int, y: int| pre.in_bounds(x, y) implies #[trigger] fin.cell_at(
                    x,
                    y,
                ) == pre.moved_cell(x, y, pre.cell_at(x, y)) by {
                    lemma_contains_prepend(pos, kept, x, y);
                    if pre.spec_eff_pending() == 0 && contains_pos(kept, x, y) {
                        lemma_contains_drop_last(pre.snek_segments@, x, y);
                    }
                    assert(m3.cell_at(x, y) == (if cleared_from.in_bounds(x, y) && contains_pos(
                        pre.snek_segments@,
                        x,
                        y,
                    ) {
                        SnekObject::Empty
                    } else {
                        cleared_from.cell_at(x, y)
                    }));
                    assert(m1.cell_at(x, y) == (if x == pos.x as int && y == pos.y as int
                        && mid.in_bounds(x, y) {
                        SnekObject::Empty
                    } else {
                        mid.cell_at(x, y)
                    }));
                }
                assert(Self::plain_move(pre, fin));
            }
            assert(Self::spec_step(pre, fin));
            // Well-formedness of the new state: the head's new cell is
            // stamped `Head`, the whole body `Segment`.
            assert(fin.cell_at(nx, ny) == SnekObject::Head) by {
                lemma_contains_prepend(pos, kept, nx, ny);
            }
            assert forall|k: int|
                0 <= k < fin.snek_segments@.len() && fin.in_bounds(
                    (#[trigger] fin.snek_segments@[k]).x as int,
                    fin.snek_segments@[k].y as int,
                ) implies fin.cell_at(
                fin.snek_segments@[k].x as int,
                fin.snek_segments@[k].y as int,
            ) == SnekObject::Segment by {
                assert(contains_pos(
                    pre.spec_post_segments(),
                    fin.snek_segments@[k].x as int,
                    fin.snek_segments@[k].y as int,
                ));
            }
            assert(fin.wf());
        }
    }

    /// The glyph a cell is drawn with: a berry, the head (an arrow along
    /// its heading), a rock, a body segment, or a free cell.
    pub open spec fn glyph_at(self, x: int, y: int) -> char {
        match self.cell_at(x, y) {
            SnekObject::Berry => '▄',
            SnekObject::Head => match self.snek_head_dir {
                SnekDirection::North => '↑',
                SnekDirection::East => '→',
                SnekDirection::West => '←',
                SnekDirection::South => '↓',
            },
            SnekObject::Rock => '█',
            SnekObject::Segment => '■',
            _ => '_',
        }
    }

    /// A pure text projection of the board: one row of glyphs per board
    /// row, top to bottom, each row newline-terminated.
    pub fn draw_text(&self) -> (out: Vec<char>)
        requires
            self.board_wf(),
        ensures
            out@.len() == self.spec_height() * (self.spec_width() + 1),
            forall|x: int, y: int|
                0 <= x < self.spec_width() && 0 <= y < self.spec_height() ==> out@[y
                    * (self.spec_width() + 1) + x] == self.glyph_at(x, y),
            forall|y: int|
                0 <= y < self.spec_height() ==> #[trigger] out@[y * (self.spec_width() + 1)
                    + self.spec_width()] == '\n',
    {
        let w = self.xsize;
        let h = self.ysize;
        let mut out: Vec<char> = Vec::new();
        let mut y: usize = 0;
        while y < h
            invariant
                self.board_wf(),
                w == self.xsize,
                h == self.ysize,
                y <= h,
                out@.len() == y * (w + 1),
                forall|i: int, j: int|
                    0 <= i < w && 0 <= j < y ==> out@[j * (w + 1) + i] == self.glyph_at(i, j),
                forall|j: int| 0 <= j < y ==> #[trigger] out@[j * (w + 1) + w] == '\n',
            decreases h - y,
        {
            proof {
                lemma_row_major_bound(0, y as int, (w + 1) as int, h as int);
            }
            let mut x: usize = 0;
            while x < w
                invariant
                    self.board_wf(),
                    w == self.xsize,
                    h == self.ysize,
                    y < h,
                    x <= w,
                    out@.len() == y * (w + 1) + x,
                    forall|i: int, j: int|
                        0 <= i < w && 0 <= j < y ==> out@[j * (w + 1) + i] == self.glyph_at(
                            i,
                            j,
                        ),
                    forall|j: int| 0 <= j < y ==> #[trigger] out@[j * (w + 1) + w] == '\n',
                    forall|i: int|
                        0 <= i < x ==> out@[y * (w + 1) + i] == self.glyph_at(i, y as int),
                decreases w - x,
            {
                proof {
                    lemma_row_major_bound(x as int, y as int, (w + 1) as int, h as int);
                }
                let pos = SnekPosition { x: x as i32, y: y as i32 };
                let glyph = match self.get_cell(&pos) {
                    SnekObject::Berry => '▄',
                    SnekObject::Head => match self.snek_head_dir {
                        SnekDirection::North => '↑',
                        SnekDirection::East => '→',
                        SnekDirection::West => '←',
                        SnekDirection::South => '↓',
                    },
                    SnekObject::Rock => '█',
                    SnekObject::Segment => '■',
                    _ => '_',
                };
                out.push(glyph);
                x += 1;
                proof {
                    assert forall|i: int, j: int| 0 <= i < w && 0 <= j < y implies out@[j * (w
                        + 1) + i] == self.glyph_at(i, j) by {
                        lemma_row_index_lt(j, i, y as int, (w + 1) as int);
                    }
                    assert forall|j: int| 0 <= j < y implies #[trigger] out@[j * (w + 1) + w]
                        == '\n' by {
                        lemma_row_index_lt(j, w as int, y as int, (w + 1) as int);
                    }
                }
            }
            out.push('\n');
            y += 1;
            proof {
                assert((y - 1) * ((w + 1) as int) + (w as int) + 1 == y as int * ((w
                    + 1) as int)) by (nonlinear_arith);
                assert forall|i: int, j: int| 0 <= i < w && 0 <= j < y implies out@[j * (w + 1)
                    + i] == self.glyph_at(i, j) by {
                    if j < y - 1 {
                        lemma_row_index_lt(j, i, y as int - 1, (w + 1) as int);
                    }
                }
                assert forall|j: int| 0 <= j < y implies #[trigger] out@[j * (w + 1) + w]
                    == '\n' by {
                    if j < y - 1 {
                        lemma_row_index_lt(j, w as int, y as int - 1, (w + 1) as int);
                    }
                }
            }
        }
        out
    }

    /// What the cell at `(x, y)` holds right after construction: the head at
    /// `(10, 10)`, a berry four cells ahead of it, a rock ten cells ahead,
    /// every other cell free.
    pub open spec fn initial_cell(self, x: int, y: int) -> SnekObject {
        if !self.in_bounds(x, y) {
            SnekObject::Wall
        } else if x == 10 && y == 10 {
            SnekObject::Head
        } else if x == 14 && y == 10 {
            SnekObject::Berry
        } else if x == 20 && y == 10 {
            SnekObject::Rock
        } else {
            SnekObject::Empty
        }
    }

    /// Initializes a round: an empty board of the given dimensions with the
    /// head, one berry and one rock pre-placed, heading East, three segments
    /// owed. The bounds keep coordinates inside `i32` and let the board (and
    /// its rendering, one extra glyph per row) fit in memory.
    pub fn new(xsize: usize, ysize: usize) -> (game: SnekGame)
        requires
            0 < xsize <= 0x7fff_ffff,
            0 < ysize <= 0x7fff_ffff,
            (xsize + 1) * ysize <= usize::MAX,
        ensures
            game.wf(),
            !game.game_over,
            game.spec_width() == xsize,
            game.spec_height() == ysize,
            game.spec_head() == (SnekPosition { x: 10, y: 10 }),
            game.spec_dir() == SnekDirection::East,
            game.spec_segments().len() == 0,
            game.spec_pending() == 3,
            forall|x: int, y: int| #[trigger] game.cell_at(x, y) == game.initial_cell(x, y),
    {
        proof {
            lemma_mul_le_side(xsize as int, ysize as int);
        }
        let n = xsize * ysize;
        let mut board: Vec<SnekObject> = Vec::new();
        let mut i: usize = 0;
        while i < n
            invariant
                i <= n,
                board@.len() == i,
                forall|k: int| 0 <= k < i ==> board@[k] == SnekObject::Empty,
            decreases n - i,
        {
            board.push(SnekObject::Empty);
            i += 1;
        }
        let snek_head_pos = SnekPosition { x: 10, y: 10 };
        let snek_head_dir = SnekDirection::East;
        let mut game = SnekGame {
            game_over: false,
            xsize,
            ysize,
            board,
            snek_head_pos,
            snek_head_dir,
            snek_segments: Vec::new(),
            snek_segments_pending: 3,
        };
        game.set_cell(&snek_head_pos, SnekObject::Head);
        let berry_pos = SnekPosition { x: 14, y: 10 };
        game.set_cell(&berry_pos, SnekObject::Berry);
        let rock_pos = SnekPosition { x: 20, y: 10 };
        game.set_cell(&rock_pos, SnekObject::Rock);
        proof {
            assert forall|x: int, y: int| #[trigger] game.cell_at(x, y) == game.initial_cell(
                x,
                y,
            ) by {
                if game.in_bounds(x, y) {
                    lemma_grid_index(game, x, y);
                }
            }
        }
        game
    }
}

/// Querying any cell strictly outside the board always yields `Wall`.
pub proof fn lemma_outside_is_wall(game: SnekGame, x: int, y: int)
    requires
        !game.in_bounds(x, y),
    ensures
        game.cell_at(x, y) == SnekObject::Wall,
{
}

/// Eating a berry feeds the snake and restocks the board: the body grows
/// by one over the following ticks (the growth is owed at once and owed
/// growth only ever materialises as segments), the eaten berry vanishes
/// under the head, and exactly one fresh berry and one fresh rock appear
/// on two distinct cells that were free and away from the snake.
pub proof fn lemma_berry_step_spawns(
    pre: SnekGame,
    post: SnekGame,
    bp: SnekPosition,
    rp: SnekPosition,
)
    requires
        pre.wf(),
        pre.spec_target() == SnekObject::Berry,
        SnekGame::berry_move(pre, post, bp, rp),
    ensures
        bp != rp,
        pre.cell_at(bp.x as int, bp.y as int) == SnekObject::Empty,
        pre.cell_at(rp.x as int, rp.y as int) == SnekObject::Empty,
        post.cell_at(bp.x as int, bp.y as int) == SnekObject::Berry,
        post.cell_at(rp.x as int, rp.y as int) == SnekObject::Rock,
        post.cell_at(pre.spec_new_x(), pre.spec_new_y()) == SnekObject::Head,
        post.snek_segments@.len() == pre.snek_segments@.len() + 1,
        post.snek_segments_pending == pre.snek_segments_pending,
{
    let nx = pre.spec_new_x();
    let ny = pre.spec_new_y();
    let kept = pre.snek_segments@;
    assert(pre.spec_eff_pending() > 0);
    assert(pre.spec_post_segments() == seq![pre.snek_head_pos] + kept);
    lemma_pos_clear_of_snake(pre, bp.x as int, bp.y as int);
    lemma_pos_clear_of_snake(pre, rp.x as int, rp.y as int);
    lemma_contains_prepend(pre.snek_head_pos, kept, bp.x as int, bp.y as int);
    lemma_contains_prepend(pre.snek_head_pos, kept, rp.x as int, rp.y as int);
    lemma_contains_prepend(pre.snek_head_pos, kept, nx, ny);
    assert(!contains_pos(kept, nx, ny)) by {
        if contains_pos(kept, nx, ny) {
            let i = choose|i: int| 0 <= i < kept.len() && kept[i].x == nx && kept[i].y == ny;
            assert(pre.cell_at(nx, ny) == SnekObject::Segment);
        }
    }
    assert(post.cell_at(bp.x as int, bp.y as int) == SnekObject::Berry);
    assert(post.cell_at(rp.x as int, rp.y as int) == SnekObject::Rock);
}

/// A cell that reads `Empty` holds neither the head nor any segment.
proof fn lemma_pos_clear_of_snake(pre: SnekGame, x: int, y: int)
    requires
        pre.wf(),
        pre.cell_at(x, y) == SnekObject::Empty,
    ensures
        !(x == pre.snek_head_pos.x && y == pre.snek_head_pos.y),
        !contains_pos(pre.snek_segments@, x, y),
{
    assert(pre.in_bounds(x, y));
    if contains_pos(pre.snek_segments@, x, y) {
        let i = choose|i: int|
            0 <= i < pre.snek_segments@.len() && pre.snek_segments@[i].x == x
                && pre.snek_segments@[i].y == y;
        assert(pre.cell_at(x, y) == SnekObject::Segment);
    }
}

/// Prepending a position adds exactly its coordinates to the list.
proof fn lemma_contains_prepend(p: SnekPosition, s: Seq<SnekPosition>, x: int, y: int)
    ensures
        contains_pos(seq![p] + s, x, y) <==> ((p.x == x && p.y == y) || contains_pos(s, x, y)),
{
    let c = seq![p] + s;
    if p.x == x && p.y == y {
        assert(c[0].x == x && c[0].y == y);
    }
    if contains_pos(s, x, y) {
        let i = choose|i: int| 0 <= i < s.len() && s[i].x == x && s[i].y == y;
        assert(c[i + 1].x == x && c[i + 1].y == y);
    }
    if contains_pos(c, x, y) {
        let i = choose|i: int| 0 <= i < c.len() && c[i].x == x && c[i].y == y;
        if i > 0 {
            assert(s[i - 1].x == x && s[i - 1].y == y);
        }
    }
}

/// Coordinates found with the last element dropped are still found.
proof fn lemma_contains_drop_last(s: Seq<SnekPosition>, x: int, y: int)
    requires
        s.len() > 0,
        contains_pos(s.drop_last(), x, y),
    ensures
        contains_pos(s, x, y),
{
    let i = choose|i: int|
        0 <= i < s.drop_last().len() && s.drop_last()[i].x == x && s.drop_last()[i].y == y;
    assert(s[i].x == x && s[i].y == y);
}

/// Extending a scanned prefix by one position adds exactly its coordinates.
proof fn lemma_contains_take_step(s: Seq<SnekPosition>, i: int, x: int, y: int)
    requires
        0 <= i < s.len(),
    ensures
        contains_pos(s.take(i + 1), x, y) <==> (contains_pos(s.take(i), x, y) || (s[i].x == x
            && s[i].y == y)),
{
    if contains_pos(s.take(i), x, y) {
        let j = choose|j: int| 0 <= j < i && s.take(i)[j].x == x && s.take(i)[j].y == y;
        assert(s.take(i + 1)[j].x == x && s.take(i + 1)[j].y == y);
    }
    if s[i].x == x && s[i].y == y {
        assert(s.take(i + 1)[i].x == x && s.take(i + 1)[i].y == y);
    }
    if contains_pos(s.take(i + 1), x, y) {
        let j = choose|j: int|
            0 <= j <= i && (#[trigger] s.take(i + 1)[j]).x == x && s.take(i + 1)[j].y == y;
        if j < i {
            assert(s.take(i)[j].x == x && s.take(i)[j].y == y);
        }
    }
}

#[verifier::external_type_specification]
#[verifier::external_body]
pub struct ExThreadRng(rand::rngs::ThreadRng);

/// Relies on rand::thread_rng: a handle to the thread-local generator.
/// Nothing is assumed of the numbers it will produce.
#[verifier::external_body]
fn thread_rng_handle() -> rand::rngs::ThreadRng {
    rand::thread_rng()
}

/// Relies on Rng::gen_range over `0..n`: the draw lies in `[0, n)`. The
/// range must be non-empty, and no draw is promised to any value.
#[verifier::external_body]
fn rng_below(rng: &mut rand::rngs::ThreadRng, n: usize) -> (r: usize)
    requires
        n > 0,
    ensures
        r < n,
{
    rng.gen_range(0..n)
}

/// An index within row `j` comes before the end of row `y - 1`.
proof fn lemma_row_index_lt(j: int, i: int, y: int, w1: int)
    requires
        0 <= j < y,
        0 <= i < w1,
    ensures
        j * w1 + i < y * w1,
{
    assert(j * w1 + i < y * w1) by (nonlinear_arith)
        requires
            0 <= j < y,
            0 <= i < w1,
    ;
}

/// A row-major index stays inside a `w`-by-`h` grid.
proof fn lemma_row_major_bound(x: int, y: int, w: int, h: int)
    requires
        0 <= x < w,
        0 <= y < h,
    ensures
        0 <= y * w + x < w * h,
{
    assert(0 <= y * w + x < w * h) by (nonlinear_arith)
        requires
            0 <= x < w,
            0 <= y < h,
    ;
}

/// A row-major index into a well-formed board is a valid vector index.
proof fn lemma_grid_index(g: SnekGame, x: int, y: int)
    requires
        g.board_wf(),
        g.in_bounds(x, y),
    ensures
        0 <= y * g.xsize + x < g.board@.len(),
        y * g.xsize + x <= usize::MAX,
{
    lemma_row_major_bound(x, y, g.xsize as int, g.ysize as int);
    lemma_mul_le_side(g.xsize as int, g.ysize as int);
}

/// Row-major indexing is injective over in-bounds coordinates.
proof fn lemma_row_major_inj(x1: int, y1: int, x2: int, y2: int, w: int)
    requires
        0 <= x1 < w,
        0 <= x2 < w,
        0 <= y1,
        0 <= y2,
        y1 * w + x1 == y2 * w + x2,
    ensures
        x1 == x2,
        y1 == y2,
{
    assert(x1 == x2 && y1 == y2) by (nonlinear_arith)
        requires
            0 <= x1 < w,
            0 <= x2 < w,
            0 <= y1,
            0 <= y2,
            y1 * w + x1 == y2 * w + x2,
    ;
}

/// `w * h` fits whenever `(w + 1) * h` does.
proof fn lemma_mul_le_side(w: int, h: int)
    requires
        0 <= w,
        0 <= h,
    ensures
        w * h <= (w + 1) * h,
{
    assert(w * h <= (w + 1) * h) by (nonlinear_arith)
        requires
            0 <= w,
            0 <= h,
    ;
}

} // verus!
