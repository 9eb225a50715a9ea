//! The puzzle state model: grid representation, the legal-move generator,
//! applying a move, and the goal test.

use vstd::prelude::*;

verus! {

/// The board is `PUZZLE_SIZE` x `PUZZLE_SIZE`.
pub const PUZZLE_SIZE: usize = 3;

/// A move of the blank one cell in a cardinal direction.
///
/// The coordinate convention follows the move generator: an `Up` swipe is
/// legal when the blank's `y` is 0 or 1 and moves the blank to `y + 1`;
/// `Down` moves it to `y - 1`; `Left` moves it to `x + 1`; `Right` to `x - 1`.
#[derive(Debug, Clone, Copy, PartialEq, Eq, Structural)]
pub enum Swipe {
    Up,
    Down,
    Left,
    Right,
}

impl Swipe {
    /// The inverse direction: applying a swipe and then its opposite
    /// returns the blank to where it was.
    pub open spec fn opposite_spec(self) -> Swipe {
        match self {
            Swipe::Up => Swipe::Down,
            Swipe::Down => Swipe::Up,
            Swipe::Left => Swipe::Right,
            Swipe::Right => Swipe::Left,
        }
    }

    pub fn opposite(&self) -> (r: Self)
        ensures
            r == self.opposite_spec(),
    {
        match *self {
            Self::Up => Self::Down,
            Self::Down => Self::Up,
            Self::Left => Self::Right,
            Self::Right => Self::Left,
        }
    }
}

/// A grid cell, identified by column `x` and row `y`, each in `[0, PUZZLE_SIZE)`.
#[derive(Debug, Clone, Copy, PartialEq, Eq, Hash, Structural)]
pub struct Coordination {
    pub x: u8,
    pub y: u8,
}

impl Coordination {
    pub fn new(x: u8, y: u8) -> (r: Self)
        ensures
            r.x == x,
            r.y == y,
    {
        Self { x, y }
    }
}

/// The mathematical model of a puzzle state: the nine tile labels in
/// row-major order (`grid[3 * row + col]`), and the blank's column `bx`
/// and row `by`. Label 8 denotes the blank.
#[verifier::ext_equal]
pub struct PuzzleV {
    pub grid: Seq<u8>,
    pub bx: int,
    pub by: int,
}

impl PuzzleV {
    /// Well-formed state: nine cells, labels in `[0, 9)`, blank coordinate
    /// on the board and pointing at the blank label.
    pub open spec fn wf(self) -> bool {
        &&& self.grid.len() == 9
        &&& 0 <= self.bx < 3
        &&& 0 <= self.by < 3
        &&& self.grid[3 * self.by + self.bx] == 8
        &&& forall|i: int| 0 <= i < 9 ==> self.grid[i] < 9
    }

    /// The goal test: cell `(r, c)` holds label `3 * r + c`, which places
    /// the blank (label 8) at the bottom-right corner.
    pub open spec fn is_goal(self) -> bool {
        forall|i: int| 0 <= i < 9 ==> self.grid[i] as int == i
    }

    /// A swipe is legal exactly when it keeps the blank on the board.
    pub open spec fn legal(self, s: Swipe) -> bool {
        match s {
            Swipe::Up => self.by < 2,
            Swipe::Down => self.by > 0,
            Swipe::Left => self.bx < 2,
            Swipe::Right => self.bx > 0,
        }
    }

    /// Column of the tile the blank swaps with.
    pub open spec fn target_x(self, s: Swipe) -> int {
        match s {
            Swipe::Left => self.bx + 1,
            Swipe::Right => self.bx - 1,
            _ => self.bx,
        }
    }

    /// Row of the tile the blank swaps with.
    pub open spec fn target_y(self, s: Swipe) -> int {
        match s {
            Swipe::Up => self.by + 1,
            Swipe::Down => self.by - 1,
            _ => self.by,
        }
    }

    /// The state after a swipe: the blank and the target tile exchange
    /// cells and the blank coordinate moves to the target cell.
    pub open spec fn apply(self, s: Swipe) -> PuzzleV {
        let bi = 3 * self.by + self.bx;
        let ti = 3 * self.target_y(s) + self.target_x(s);
        PuzzleV {
            grid: self.grid.update(bi, self.grid[ti]).update(ti, 8),
            bx: self.target_x(s),
            by: self.target_y(s),
        }
    }
}

/// A puzzle state: a 3x3 grid of tile labels in `[0, 9)` where label 8
/// denotes the blank, plus the cached coordinate of the blank.
#[derive(Debug, Clone, PartialEq, Eq, Hash)]
pub struct Puzzle {
    pub tiles: Vec<Vec<u8>>,
    pub empty_tile: Coordination,
}

impl View for Puzzle {
    type V = PuzzleV;

    open spec fn view(&self) -> PuzzleV {
        PuzzleV {
            grid: Seq::new(9, |i: int| self.tiles@[i / 3]@[i % 3]),
            bx: self.empty_tile.x as int,
            by: self.empty_tile.y as int,
        }
    }
}

/// The order in which the move generator lists the legal swipes:
/// the horizontal pair first, then the vertical pair.
pub open spec fn actions_spec(v: PuzzleV) -> Seq<Swipe> {
    (if v.bx == 0 {
        seq![Swipe::Left]
    } else if v.bx == 2 {
        seq![Swipe::Right]
    } else {
        seq![Swipe::Left, Swipe::Right]
    }) + (if v.by == 0 {
        seq![Swipe::Up]
    } else if v.by == 2 {
        seq![Swipe::Down]
    } else {
        seq![Swipe::Up, Swipe::Down]
    })
}

impl Puzzle {
    /// Well-formed representation: exactly three rows of three columns,
    /// and a well-formed abstract state.
    pub open spec fn wf(self) -> bool {
        &&& self.tiles@.len() == 3
        &&& (forall|r: int| 0 <= r < 3 ==> self.tiles@[r]@.len() == 3)
        &&& self@.wf()
    }

    /// Builds a state from a grid and the blank's coordinate. The caller
    /// must supply a 3x3 grid of labels in `[0, 9)` whose cell at the given
    /// coordinate holds the blank label 8.
    pub fn new(tiles: Vec<Vec<u8>>, empty_tile: Coordination) -> (p: Puzzle)
        requires
            tiles@.len() == 3,
            forall|r: int| 0 <= r < 3 ==> tiles@[r]@.len() == 3,
            empty_tile.x < 3,
            empty_tile.y < 3,
            tiles@[empty_tile.y as int]@[empty_tile.x as int] == 8,
            forall|r: int, c: int| 0 <= r < 3 && 0 <= c < 3 ==> tiles@[r]@[c] < 9,
        ensures
            p.tiles == tiles,
            p.empty_tile == empty_tile,
            p.wf(),
    {
        let p = Puzzle { tiles, empty_tile };
        proof {
            let v = p@;
            assert(v.grid[3 * v.by + v.bx] == 8) by {
                lemma_flat_index(v.by, v.bx);
            }
            assert forall|i: int| 0 <= i < 9 implies v.grid[i] < 9 by {
                assert(0 <= i / 3 < 3 && 0 <= i % 3 < 3);
            }
        }
        p
    }

    /// The legal swipes for this state, horizontal pair first, then the
    /// vertical pair; always 2, 3 or 4 of them.
    pub fn possible_actions(&self) -> (r: Vec<Swipe>)
        requires
            self.wf(),
        ensures
            r@ == actions_spec(self@),
            2 <= r@.len() <= 4,
            forall|i: int| 0 <= i < r@.len() ==> self@.legal(#[trigger] r@[i]),
    {
        let mut acts: Vec<Swipe> = Vec::with_capacity(4);
        let x = self.empty_tile.x;
        let y = self.empty_tile.y;

        if x == 0 {
            acts.push(Swipe::Left);
        } else if x == 2 {
            acts.push(Swipe::Right);
        } else {
            acts.push(Swipe::Left);
            acts.push(Swipe::Right);
        }

        if y == 0 {
            acts.push(Swipe::Up);
        } else if y == 2 {
            acts.push(Swipe::Down);
        } else {
            acts.push(Swipe::Up);
            acts.push(Swipe::Down);
        }

        proof {
            assert(acts@ =~= actions_spec(self@));
        }
        acts
    }

    /// Applies a legal swipe, producing the new state and leaving this one
    /// untouched. The caller must only apply swipes from `possible_actions`.
    pub fn transitional_state_with_action(&self, swipe: Swipe) -> (r: Puzzle)
        requires
            self.wf(),
            self@.legal(swipe),
        ensures
            r@ == self@.apply(swipe),
            r.wf(),
    {
        let ex = self.empty_tile.x;
        let ey = self.empty_tile.y;
        let (tx, ty): (u8, u8) = match swipe {
            Swipe::Up => (ex, ey + 1),
            Swipe::Down => (ex, ey - 1),
            Swipe::Left => (ex + 1, ey),
            Swipe::Right => (ex - 1, ey),
        };
        proof {
            assert(tx as int == self@.target_x(swipe));
            assert(ty as int == self@.target_y(swipe));
            lemma_flat_index(ty as int, tx as int);
            lemma_flat_index(ey as int, ex as int);
        }
        let moved = self.tiles[ty as usize][tx as usize];
        let mut tiles = clone_tiles(&self.tiles);
        set_tile(&mut tiles, ey as usize, ex as usize, moved);
        set_tile(&mut tiles, ty as usize, tx as usize, 8);
        let r = Puzzle { tiles, empty_tile: Coordination { x: tx, y: ty } };
        proof {
            let v = self@;
            let w = v.apply(swipe);
            let bi = 3 * v.by + v.bx;
            let ti = 3 * (ty as int) + (tx as int);
            assert forall|i: int| 0 <= i < 9 implies r@.grid[i] == w.grid[i] by {
                lemma_flat_index_inverse(i);
                lemma_flat_index(i / 3, i % 3);
            }
            assert(r@.grid =~= w.grid);
            assert(r@ =~= w);
            lemma_apply_wf(v, swipe);
        }
        r
    }

    /// The goal test: true exactly when every cell `(r, c)` holds label
    /// `3 * r + c`.
    pub fn is_correct(&self) -> (r: bool)
        requires
            self.wf(),
        ensures
            r == self@.is_goal(),
    {
        let mut row: usize = 0;
        while row < 3
            invariant
                self.wf(),
                row <= 3,
                forall|i: int| 0 <= i < 3 * row ==> self@.grid[i] as int == i,
            decreases 3 - row,
        {
            let mut col: usize = 0;
            while col < 3
                invariant
                    self.wf(),
                    row < 3,
                    col <= 3,
                    forall|i: int| 0 <= i < 3 * row + col ==> self@.grid[i] as int == i,
                decreases 3 - col,
            {
                let tile = self.tiles[row][col];
                proof {
                    lemma_flat_index(row as int, col as int);
                }
                if (3 * row + col) as u8 != tile {
                    assert(self@.grid[3 * row + col] as int != 3 * row + col);
                    return false;
                }
                col += 1;
            }
            row += 1;
        }
        true
    }

    /// A deep copy whose abstract state equals this one's.
    pub(crate) fn duplicate(&self) -> (r: Puzzle)
        requires
            self.wf(),
        ensures
            r@ == self@,
            r.empty_tile == self.empty_tile,
            r.wf(),
    {
        let tiles = clone_tiles(&self.tiles);
        let r = Puzzle { tiles, empty_tile: self.empty_tile };
        proof {
            assert forall|i: int| 0 <= i < 9 implies r@.grid[i] == self@.grid[i] by {
                lemma_flat_index_inverse(i);
            }
            assert(r@.grid =~= self@.grid);
            assert(r@ =~= self@);
        }
        r
    }
}

/// For a cell at row `y`, column `x`, the flat index `3 * y + x` decomposes
/// back into the same row and column.
proof fn lemma_flat_index(y: int, x: int)
    requires
        0 <= y < 3,
        0 <= x < 3,
    ensures
        (3 * y + x) / 3 == y,
        (3 * y + x) % 3 == x,
{
}

/// Every flat index recomposes from its row and column parts.
proof fn lemma_flat_index_inverse(i: int)
    requires
        0 <= i < 9,
    ensures
        3 * (i / 3) + i % 3 == i,
        0 <= i / 3 < 3,
        0 <= i % 3 < 3,
{
}

/// Copies one row of tiles.
fn clone_row(row: &Vec<u8>) -> (r: Vec<u8>)
    ensures
        r@ == row@,
{
    let mut r: Vec<u8> = Vec::with_capacity(row.len());
    let mut i: usize = 0;
    while i < row.len()
        invariant
            i <= row@.len(),
            r@ == row@.take(i as int),
        decreases row@.len() - i,
    {
        let t = row[i];
        r.push(t);
        proof {
            assert(row@.take(i + 1) =~= row@.take(i as int).push(t));
        }
        i += 1;
    }
    proof {
        assert(row@.take(row@.len() as int) =~= row@);
    }
    r
}

/// Copies a grid row by row.
fn clone_tiles(tiles: &Vec<Vec<u8>>) -> (r: Vec<Vec<u8>>)
    ensures
        r@.len() == tiles@.len(),
        forall|i: int| 0 <= i < tiles@.len() ==> r@[i]@ == tiles@[i]@,
{
    let mut r: Vec<Vec<u8>> = Vec::with_capacity(tiles.len());
    let mut i: usize = 0;
    while i < tiles.len()
        invariant
            i <= tiles@.len(),
            r@.len() == i,
            forall|j: int| 0 <= j < i ==> r@[j]@ == tiles@[j]@,
        decreases tiles@.len() - i,
    {
        let row = clone_row(&tiles[i]);
        r.push(row);
        i += 1;
    }
    r
}

/// Writes one cell of a grid, leaving every other row untouched.
fn set_tile(tiles: &mut Vec<Vec<u8>>, y: usize, x: usize, val: u8)
    requires
        y < old(tiles)@.len(),
        x < old(tiles)@[y as int]@.len(),
    ensures
        final(tiles)@.len() == old(tiles)@.len(),
        forall|r: int|
            0 <= r < old(tiles)@.len() && r != y ==> final(tiles)@[r] == old(tiles)@[r],
        final(tiles)@[y as int]@ == old(tiles)@[y as int]@.update(x as int, val),
{
    let row: &mut Vec<u8> = &mut tiles[y];
    row.set(x, val);
}

/// The unique solved grid: label `i` at flat index `i`.
pub open spec fn canonical_grid() -> Seq<u8> {
    Seq::new(9, |i: int| i as u8)
}

/// A legal swipe preserves well-formedness: the blank stays on the board
/// and the swapped labels stay in range.
pub proof fn lemma_apply_wf(v: PuzzleV, s: Swipe)
    requires
        v.wf(),
        v.legal(s),
    ensures
        v.apply(s).wf(),
{
    let bi = 3 * v.by + v.bx;
    let ti = 3 * v.target_y(s) + v.target_x(s);
    assert(bi != ti);
    assert(v.apply(s).grid[3 * v.apply(s).by + v.apply(s).bx] == 8);
}

/// Move/opposite round trip: applying a legal swipe and then its opposite
/// is legal and returns exactly the original state.
pub proof fn lemma_swipe_roundtrip(v: PuzzleV, s: Swipe)
    requires
        v.wf(),
        v.legal(s),
    ensures
        v.apply(s).wf(),
        v.apply(s).legal(s.opposite_spec()),
        v.apply(s).apply(s.opposite_spec()) == v,
{
    lemma_apply_wf(v, s);
    let w = v.apply(s);
    let o = s.opposite_spec();
    let bi = 3 * v.by + v.bx;
    assert(3 * w.target_y(o) + w.target_x(o) == bi);
    assert(w.apply(o).grid =~= v.grid);
    assert(w.apply(o) =~= v);
}

/// The move generator is sound and complete: it lists 2 to 4 swipes, every
/// listed swipe is legal and keeps the blank on the board, and every legal
/// swipe is listed.
pub proof fn lemma_possible_actions_sound(v: PuzzleV)
    requires
        v.wf(),
    ensures
        2 <= actions_spec(v).len() <= 4,
        forall|i: int|
            0 <= i < actions_spec(v).len() ==> {
                let a = #[trigger] actions_spec(v)[i];
                v.legal(a) && v.apply(a).wf()
            },
        forall|a: Swipe| v.legal(a) ==> actions_spec(v).contains(a),
{
    assert forall|i: int| 0 <= i < actions_spec(v).len() implies {
        let a = #[trigger] actions_spec(v)[i];
        v.legal(a) && v.apply(a).wf()
    } by {
        let a = actions_spec(v)[i];
        assert(v.legal(a));
        lemma_apply_wf(v, a);
    }
    assert forall|a: Swipe| v.legal(a) implies actions_spec(v).contains(a) by {
        let s = actions_spec(v);
        match a {
            Swipe::Left => {
                assert(s[0] == Swipe::Left || v.bx == 2);
            }
            Swipe::Right => {
                assert(v.bx == 0 || (v.bx == 2 && s[0] == Swipe::Right) || s[1]
                    == Swipe::Right);
            }
            Swipe::Up => {
                let h: int = if v.bx == 0 || v.bx == 2 {
                    1
                } else {
                    2
                };
                assert(v.by == 2 || s[h] == Swipe::Up);
            }
            Swipe::Down => {
                let h: int = if v.bx == 0 || v.bx == 2 {
                    1
                } else {
                    2
                };
                assert(v.by == 0 || (v.by == 2 && s[h] == Swipe::Down) || s[h + 1]
                    == Swipe::Down);
            }
        }
    }
}

/// There is only one well-formed goal state.
pub proof fn lemma_goal_unique(a: PuzzleV, b: PuzzleV)
    requires
        a.wf(),
        b.wf(),
        a.is_goal(),
        b.is_goal(),
    ensures
        a == b,
{
    lemma_goal_is_canonical(a);
    lemma_goal_is_canonical(b);
    assert(a =~= b);
}

/// The goal test holds exactly for the canonical grid, and a well-formed
/// goal state has its blank at column 2, row 2.
pub proof fn lemma_goal_is_canonical(v: PuzzleV)
    requires
        v.wf(),
    ensures
        v.is_goal() <==> (v.grid == canonical_grid() && v.bx == 2 && v.by == 2),
{
    if v.is_goal() {
        assert(v.grid =~= canonical_grid());
        assert(v.grid[3 * v.by + v.bx] as int == 3 * v.by + v.bx);
    }
    if v.grid == canonical_grid() {
        assert(forall|i: int| 0 <= i < 9 ==> v.grid[i] as int == i);
    }
}

} // verus!
